//! The document codec: a full descriptor text split into its five
//! sections, item parsing deferred to the proxy and group codecs, and
//! an in-memory document serialized back to the full text layout.
//!
//! A section starts at a line that is exactly its header and runs
//! until the next bracketed line or the end of the input; blank lines
//! and `//` comments inside a body are skipped; a line starting with
//! `#!` outside any section sets the managed-config head, the last
//! one winning.  Decoding never fails: malformed items are dropped
//! line by line.
use vstd::prelude::*;
use vstd::string::StringExecFns;

use crate::group::{group_text_v, parse_group_v, GroupV, ProxyGroup};
use crate::proxy::{parse_proxy_v, proxy_text_v, Proxy, ProxyV};
use crate::text::{
    chars_eq, chars_of, join_strings, join_v, split_chars, split_v, string_from_chars,
    trim_chars, trim_v,
};

verus! {

broadcast use vstd::string::group_string_axioms;

/// The mathematical model of a descriptor document.
#[verifier::ext_equal]
pub ghost struct DocV {
    pub head: Seq<char>,
    pub general: Seq<Seq<char>>,
    pub proxies: Seq<ProxyV>,
    pub groups: Seq<GroupV>,
    pub rules: Seq<Seq<char>>,
    pub url_rewrites: Seq<Seq<char>>,
}

/// The document every field of which is empty.
pub open spec fn empty_doc() -> DocV {
    DocV {
        head: Seq::<char>::empty(),
        general: Seq::<Seq<char>>::empty(),
        proxies: Seq::<ProxyV>::empty(),
        groups: Seq::<GroupV>::empty(),
        rules: Seq::<Seq<char>>::empty(),
        url_rewrites: Seq::<Seq<char>>::empty(),
    }
}

/// A bracketed line: any section header, recognized or not, ends the
/// body of the section before it.
pub open spec fn is_bracket_line(l: Seq<char>) -> bool {
    l.len() > 0 && l[0] == '['
}

/// A comment line inside a section body.
pub open spec fn is_comment_v(l: Seq<char>) -> bool {
    l.len() >= 2 && l[0] == '/' && l[1] == '/'
}

/// A managed-config head line outside any section.
pub open spec fn is_head_line(l: Seq<char>) -> bool {
    l.len() >= 2 && l[0] == '#' && l[1] == '!'
}

/// Whether a line opens a section: any bracketed line does, whether
/// or not its header is recognized.
pub fn is_section_head(line: &str) -> (r: bool)
    ensures
        r == is_bracket_line(line@),
{
    let lc = chars_of(line);
    lc.len() > 0 && lc[0] == '['
}

/// Whether a line is a comment inside a section body.
pub fn is_comment(line: &str) -> (r: bool)
    ensures
        r == is_comment_v(line@),
{
    let lc = chars_of(line);
    lc.len() >= 2 && lc[0] == '/' && lc[1] == '/'
}

/// The index of the first line at or after `i` whose trimmed form is
/// bracketed, or the number of lines when there is none: where the
/// section whose body starts at `i` ends.
pub open spec fn section_end(lines: Seq<Seq<char>>, i: int) -> int
    decreases lines.len() - i,
{
    if i >= lines.len() {
        lines.len() as int
    } else if is_bracket_line(trim_v(lines[i])) {
        i
    } else {
        section_end(lines, i + 1)
    }
}

pub proof fn lemma_section_end_bounds(lines: Seq<Seq<char>>, i: int)
    requires
        0 <= i <= lines.len(),
    ensures
        i <= section_end(lines, i) <= lines.len(),
    decreases lines.len() - i,
{
    if i < lines.len() && !is_bracket_line(trim_v(lines[i])) {
        lemma_section_end_bounds(lines, i + 1);
    }
}

/// A section body cleaned as the decoder stores it: each line
/// trimmed, blank and comment lines dropped, order kept.
pub open spec fn clean_lines(lines: Seq<Seq<char>>) -> Seq<Seq<char>>
    decreases lines.len(),
{
    if lines.len() == 0 {
        Seq::<Seq<char>>::empty()
    } else {
        let prev = clean_lines(lines.drop_last());
        let t = trim_v(lines.last());
        if t.len() > 0 && !is_comment_v(t) {
            prev + seq![t]
        } else {
            prev
        }
    }
}

/// The proxies of a cleaned `[Proxy]` body: each line parsed, lines
/// that fail their grammar silently omitted.
pub open spec fn parse_proxies_v(cands: Seq<Seq<char>>) -> Seq<ProxyV>
    decreases cands.len(),
{
    if cands.len() == 0 {
        Seq::<ProxyV>::empty()
    } else {
        parse_proxies_v(cands.drop_last()) + (match parse_proxy_v(cands.last()) {
            Some(p) => seq![p],
            None => Seq::<ProxyV>::empty(),
        })
    }
}

/// The groups of a cleaned `[Proxy Group]` body, with the same
/// silent-omission policy.
pub open spec fn parse_groups_v(cands: Seq<Seq<char>>) -> Seq<GroupV>
    decreases cands.len(),
{
    if cands.len() == 0 {
        Seq::<GroupV>::empty()
    } else {
        parse_groups_v(cands.drop_last()) + (match parse_group_v(cands.last()) {
            Some(g) => seq![g],
            None => Seq::<GroupV>::empty(),
        })
    }
}

/// The scan of the lines from index `i` with the document built so
/// far: a recognized header consumes its body and replaces that
/// section; an unrecognized or stray line is skipped; a `#!` line
/// replaces the head, so the last one wins.
pub open spec fn parse_doc_rec(lines: Seq<Seq<char>>, i: int, acc: DocV) -> DocV
    decreases lines.len() - i,
    via parse_doc_rec_decreases
{
    if i < 0 || i >= lines.len() {
        acc
    } else {
        let l = lines[i];
        if l == "[General]"@ {
            let j = section_end(lines, i + 1);
            parse_doc_rec(
                lines,
                j,
                DocV { general: clean_lines(lines.subrange(i + 1, j)), ..acc },
            )
        } else if l == "[Proxy]"@ {
            let j = section_end(lines, i + 1);
            parse_doc_rec(
                lines,
                j,
                DocV { proxies: parse_proxies_v(clean_lines(lines.subrange(i + 1, j))), ..acc },
            )
        } else if l == "[Proxy Group]"@ {
            let j = section_end(lines, i + 1);
            parse_doc_rec(
                lines,
                j,
                DocV { groups: parse_groups_v(clean_lines(lines.subrange(i + 1, j))), ..acc },
            )
        } else if l == "[Rule]"@ {
            let j = section_end(lines, i + 1);
            parse_doc_rec(lines, j, DocV { rules: clean_lines(lines.subrange(i + 1, j)), ..acc })
        } else if l == "[URL Rewrite]"@ {
            let j = section_end(lines, i + 1);
            parse_doc_rec(
                lines,
                j,
                DocV { url_rewrites: clean_lines(lines.subrange(i + 1, j)), ..acc },
            )
        } else if is_head_line(l) {
            parse_doc_rec(lines, i + 1, DocV { head: l, ..acc })
        } else {
            parse_doc_rec(lines, i + 1, acc)
        }
    }
}

#[via_fn]
proof fn parse_doc_rec_decreases(lines: Seq<Seq<char>>, i: int, acc: DocV) {
    if 0 <= i < lines.len() {
        lemma_section_end_bounds(lines, i + 1);
    }
}

/// The document a whole descriptor text denotes.  Decoding always
/// produces a document, possibly with every field empty.
pub open spec fn parse_document_v(text: Seq<char>) -> DocV {
    parse_doc_rec(split_v(text, '\n'), 0, empty_doc())
}

/// One serialized section: the header, a newline, and the items
/// joined by newlines.
pub open spec fn block_v(header: Seq<char>, items: Seq<Seq<char>>) -> Seq<char> {
    header + seq!['\n'] + join_v(items, seq!['\n'])
}

/// The serialized text of a document: the head and the five sections
/// in fixed order, blocks separated by one blank line.
pub open spec fn doc_text_v(d: DocV) -> Seq<char> {
    join_v(
        seq![
            d.head,
            block_v("[General]"@, d.general),
            block_v("[Proxy]"@, d.proxies.map_values(|p: ProxyV| proxy_text_v(p))),
            block_v("[Proxy Group]"@, d.groups.map_values(|g: GroupV| group_text_v(g))),
            block_v("[Rule]"@, d.rules),
            block_v("[URL Rewrite]"@, d.url_rewrites),
        ],
        seq!['\n', '\n'],
    )
}

/// Encoding the same document twice yields identical text: the
/// serialized form is a function of the document value alone.
pub proof fn lemma_encode_idempotent(d: DocV, t1: Seq<char>, t2: Seq<char>)
    requires
        t1 == doc_text_v(d),
        t2 == doc_text_v(d),
    ensures
        t1 == t2,
{
}

/// The aggregate unit: a managed-config head line, the directive
/// sections, the proxies, and the proxy groups of one descriptor.
#[derive(Debug, Clone)]
pub struct SurgeConfiguration {
    head: String,
    general: Vec<String>,
    proxies: Vec<Proxy>,
    proxy_groups: Vec<ProxyGroup>,
    rules: Vec<String>,
    url_rewrites: Vec<String>,
}

impl View for SurgeConfiguration {
    type V = DocV;

    closed spec fn view(&self) -> DocV {
        DocV {
            head: self.head@,
            general: self.general.deep_view(),
            proxies: self.proxies.deep_view(),
            groups: self.proxy_groups.deep_view(),
            rules: self.rules.deep_view(),
            url_rewrites: self.url_rewrites.deep_view(),
        }
    }
}

impl DeepView for SurgeConfiguration {
    type V = DocV;

    open spec fn deep_view(&self) -> DocV {
        self.view()
    }
}

impl Default for SurgeConfiguration {
    /// A document with every field empty.
    fn default() -> (r: SurgeConfiguration)
        ensures
            r@ == empty_doc(),
    {
        let r = SurgeConfiguration {
            head: String::new(),
            general: Vec::new(),
            proxies: Vec::new(),
            proxy_groups: Vec::new(),
            rules: Vec::new(),
            url_rewrites: Vec::new(),
        };
        proof {
            assert(r@ =~~= empty_doc());
        }
        r
    }
}

impl SurgeConfiguration {
    pub fn get_head(&self) -> (r: &str)
        ensures
            r@ == self@.head,
    {
        self.head.as_str()
    }

    pub fn get_general(&self) -> (r: &Vec<String>)
        ensures
            r.deep_view() == self@.general,
    {
        &self.general
    }

    pub fn get_proxies(&self) -> (r: &Vec<Proxy>)
        ensures
            r.deep_view() == self@.proxies,
    {
        &self.proxies
    }

    pub fn get_proxy_groups(&self) -> (r: &Vec<ProxyGroup>)
        ensures
            r.deep_view() == self@.groups,
    {
        &self.proxy_groups
    }

    pub fn get_rules(&self) -> (r: &Vec<String>)
        ensures
            r.deep_view() == self@.rules,
    {
        &self.rules
    }

    pub fn get_url_rewrites(&self) -> (r: &Vec<String>)
        ensures
            r.deep_view() == self@.url_rewrites,
    {
        &self.url_rewrites
    }

    pub fn set_head(&mut self, head: String)
        ensures
            final(self)@ == (DocV { head: head@, ..old(self)@ }),
    {
        self.head = head;
    }

    pub fn add_general(&mut self, general: String)
        ensures
            final(self)@ == (DocV {
                general: old(self)@.general.push(general@),
                ..old(self)@
            }),
    {
        let ghost old_v = self@.general;
        self.general.push(general);
        proof {
            assert(self@.general =~~= old_v.push(self@.general.last()));
        }
    }

    pub fn add_rule(&mut self, rule: String)
        ensures
            final(self)@ == (DocV { rules: old(self)@.rules.push(rule@), ..old(self)@ }),
    {
        let ghost old_v = self@.rules;
        self.rules.push(rule);
        proof {
            assert(self@.rules =~~= old_v.push(self@.rules.last()));
        }
    }

    pub fn add_url_rewrite(&mut self, url_rewrite: String)
        ensures
            final(self)@ == (DocV {
                url_rewrites: old(self)@.url_rewrites.push(url_rewrite@),
                ..old(self)@
            }),
    {
        let ghost old_v = self@.url_rewrites;
        self.url_rewrites.push(url_rewrite);
        proof {
            assert(self@.url_rewrites =~~= old_v.push(self@.url_rewrites.last()));
        }
    }

    pub fn add_proxy_group(&mut self, proxy_group: ProxyGroup)
        ensures
            final(self)@ == (DocV {
                groups: old(self)@.groups.push(proxy_group@),
                ..old(self)@
            }),
    {
        let ghost old_v = self@.groups;
        let ghost gv = proxy_group@;
        self.proxy_groups.push(proxy_group);
        proof {
            assert(self@.groups =~~= old_v.push(gv));
        }
    }

    /// Parses one literal proxy-definition string and appends the
    /// entry to the back of the proxies; a malformed string is
    /// silently dropped.
    pub fn add_proxy(&mut self, proxy_str: &str)
        ensures
            final(self)@ == (DocV {
                proxies: old(self)@.proxies + (match parse_proxy_v(proxy_str@) {
                    Some(p) => seq![p],
                    None => Seq::<ProxyV>::empty(),
                }),
                ..old(self)@
            }),
    {
        let ghost old_v = self@.proxies;
        match Proxy::from_str(proxy_str) {
            Some(p) => {
                let ghost pv = p@;
                self.proxies.push(p);
                proof {
                    assert(self@.proxies =~~= old_v.push(pv));
                    assert(old_v.push(pv) =~= old_v + seq![pv]);
                }
            },
            None => {
                proof {
                    assert(old_v + Seq::<ProxyV>::empty() =~= old_v);
                }
            },
        }
    }

    /// The lines of one section body collected as the decoder stores
    /// a directive section: `start` is the index of the section's
    /// header line; the result carries the cleaned body and the index
    /// of the line that ended the section.
    pub fn string_vec(lines: &Vec<Vec<char>>, start: usize) -> (r: (Vec<String>, usize))
        requires
            start < lines@.len(),
        ensures
            r.1 == section_end(lines.deep_view(), start + 1),
            start + 1 <= r.1 <= lines@.len(),
            r.0.deep_view() == clean_lines(
                lines.deep_view().subrange(start + 1, r.1 as int),
            ),
    {
        let ghost dv = lines.deep_view();
        let n = lines.len();
        let mut j = start + 1;
        let mut out: Vec<String> = Vec::new();
        proof {
            assert(dv.subrange(start + 1, start + 1) =~= Seq::<Seq<char>>::empty());
            assert(out.deep_view() =~= clean_lines(dv.subrange(start + 1, start + 1)));
        }
        while j < n
            invariant
                start + 1 <= j <= n == lines@.len(),
                dv == lines.deep_view(),
                n == dv.len(),
                section_end(dv, start + 1) == section_end(dv, j as int),
                out.deep_view() == clean_lines(dv.subrange(start + 1, j as int)),
            ensures
                start + 1 <= j <= n,
                section_end(dv, start + 1) == section_end(dv, j as int),
                out.deep_view() == clean_lines(dv.subrange(start + 1, j as int)),
                j == n || is_bracket_line(trim_v(dv[j as int])),
            decreases n - j,
        {
            let t = trim_chars(&lines[j]);
            proof {
                assert(lines@[j as int]@ == dv[j as int]);
            }
            if t.len() > 0 && t[0] == '[' {
                break ;
            }
            let ghost old_dv = out.deep_view();
            proof {
                assert(!is_bracket_line(trim_v(dv[j as int])));
                assert(dv.subrange(start + 1, j + 1).drop_last() =~= dv.subrange(
                    start + 1,
                    j as int,
                ));
                assert(dv.subrange(start + 1, j + 1).last() == dv[j as int]);
            }
            let keep = if t.len() == 0 {
                false
            } else if t.len() >= 2 && t[0] == '/' && t[1] == '/' {
                false
            } else {
                true
            };
            if keep {
                out.push(string_from_chars(&t));
                proof {
                    assert(out.deep_view() =~~= old_dv.push(trim_v(dv[j as int])));
                    assert(old_dv.push(trim_v(dv[j as int])) =~= clean_lines(dv.subrange(
                        start + 1,
                        j + 1,
                    )));
                }
            } else {
                proof {
                    assert(out.deep_view() =~= clean_lines(dv.subrange(start + 1, j + 1)));
                }
            }
            j = j + 1;
        }
        proof {
            if j < n {
                assert(section_end(dv, j as int) == j);
            }
        }
        (out, j)
    }

    /// The proxies of one `[Proxy]` section body, malformed lines
    /// silently omitted; `start` is the index of the header line.
    pub fn proxy_vec(lines: &Vec<Vec<char>>, start: usize) -> (r: (Vec<Proxy>, usize))
        requires
            start < lines@.len(),
        ensures
            r.1 == section_end(lines.deep_view(), start + 1),
            start + 1 <= r.1 <= lines@.len(),
            r.0.deep_view() == parse_proxies_v(
                clean_lines(lines.deep_view().subrange(start + 1, r.1 as int)),
            ),
    {
        let (cands, j) = Self::string_vec(lines, start);
        let ghost cdv = cands.deep_view();
        let m = cands.len();
        let mut out: Vec<Proxy> = Vec::new();
        let mut i: usize = 0;
        proof {
            assert(cdv.take(0) =~= Seq::<Seq<char>>::empty());
            assert(out.deep_view() =~= parse_proxies_v(cdv.take(0)));
        }
        while i < m
            invariant
                0 <= i <= m == cands@.len(),
                cdv == cands.deep_view(),
                m == cdv.len(),
                out.deep_view() == parse_proxies_v(cdv.take(i as int)),
            decreases m - i,
        {
            let ghost old_dv = out.deep_view();
            proof {
                assert(cands@[i as int]@ == cdv[i as int]);
                assert(cdv.take(i + 1).drop_last() =~= cdv.take(i as int));
                assert(cdv.take(i + 1).last() == cdv[i as int]);
            }
            match Proxy::from_str(cands[i].as_str()) {
                Some(p) => {
                    let ghost pv = p@;
                    out.push(p);
                    proof {
                        assert(out.deep_view() =~~= old_dv.push(pv));
                        assert(old_dv.push(pv) =~= parse_proxies_v(cdv.take(i + 1)));
                    }
                },
                None => {
                    proof {
                        assert(out.deep_view() =~= parse_proxies_v(cdv.take(i + 1)));
                    }
                },
            }
            i = i + 1;
        }
        proof {
            assert(cdv.take(m as int) =~= cdv);
        }
        (out, j)
    }

    /// The groups of one `[Proxy Group]` section body, with the same
    /// silent-omission policy.
    pub fn group_vec(lines: &Vec<Vec<char>>, start: usize) -> (r: (Vec<ProxyGroup>, usize))
        requires
            start < lines@.len(),
        ensures
            r.1 == section_end(lines.deep_view(), start + 1),
            start + 1 <= r.1 <= lines@.len(),
            r.0.deep_view() == parse_groups_v(
                clean_lines(lines.deep_view().subrange(start + 1, r.1 as int)),
            ),
    {
        let (cands, j) = Self::string_vec(lines, start);
        let ghost cdv = cands.deep_view();
        let m = cands.len();
        let mut out: Vec<ProxyGroup> = Vec::new();
        let mut i: usize = 0;
        proof {
            assert(cdv.take(0) =~= Seq::<Seq<char>>::empty());
            assert(out.deep_view() =~= parse_groups_v(cdv.take(0)));
        }
        while i < m
            invariant
                0 <= i <= m == cands@.len(),
                cdv == cands.deep_view(),
                m == cdv.len(),
                out.deep_view() == parse_groups_v(cdv.take(i as int)),
            decreases m - i,
        {
            let ghost old_dv = out.deep_view();
            proof {
                assert(cands@[i as int]@ == cdv[i as int]);
                assert(cdv.take(i + 1).drop_last() =~= cdv.take(i as int));
                assert(cdv.take(i + 1).last() == cdv[i as int]);
            }
            match ProxyGroup::from_str(cands[i].as_str()) {
                Some(g) => {
                    let ghost gv = g@;
                    out.push(g);
                    proof {
                        assert(out.deep_view() =~~= old_dv.push(gv));
                        assert(old_dv.push(gv) =~= parse_groups_v(cdv.take(i + 1)));
                    }
                },
                None => {
                    proof {
                        assert(out.deep_view() =~= parse_groups_v(cdv.take(i + 1)));
                    }
                },
            }
            i = i + 1;
        }
        proof {
            assert(cdv.take(m as int) =~= cdv);
        }
        (out, j)
    }

    /// The document denoted by a whole descriptor text.  Always
    /// produces a document, possibly with every field empty.
    pub fn from_config_string(config: &str) -> (r: Option<SurgeConfiguration>)
        ensures
            r is Some,
            r matches Some(c) ==> c@ == parse_document_v(config@),
    {
        let cc = chars_of(config);
        let lines = split_chars(&cc, '\n');
        let ghost dv = lines.deep_view();
        let mut configuration = SurgeConfiguration::default();
        let n = lines.len();
        let mut i: usize = 0;
        let h_general = chars_of("[General]");
        let h_proxy = chars_of("[Proxy]");
        let h_group = chars_of("[Proxy Group]");
        let h_rule = chars_of("[Rule]");
        let h_rewrite = chars_of("[URL Rewrite]");
        while i < n
            invariant
                0 <= i <= n == lines@.len(),
                dv == lines.deep_view(),
                n == dv.len(),
                h_general@ == "[General]"@,
                h_proxy@ == "[Proxy]"@,
                h_group@ == "[Proxy Group]"@,
                h_rule@ == "[Rule]"@,
                h_rewrite@ == "[URL Rewrite]"@,
                parse_doc_rec(dv, 0, empty_doc()) == parse_doc_rec(
                    dv,
                    i as int,
                    configuration@,
                ),
            decreases n - i,
        {
            proof {
                assert(lines@[i as int]@ == dv[i as int]);
            }
            let ghost pre = configuration@;
            let ghost i0 = i as int;
            if chars_eq(&lines[i], &h_general) {
                let (items, j) = Self::string_vec(&lines, i);
                configuration.general = items;
                i = j;
                proof {
                    assert(configuration@ =~~= (DocV {
                        general: clean_lines(dv.subrange(i0 + 1, section_end(dv, i0 + 1))),
                        ..pre
                    }));
                }
            } else if chars_eq(&lines[i], &h_proxy) {
                let (items, j) = Self::proxy_vec(&lines, i);
                configuration.proxies = items;
                i = j;
                proof {
                    assert(configuration@ =~~= (DocV {
                        proxies: parse_proxies_v(
                            clean_lines(dv.subrange(i0 + 1, section_end(dv, i0 + 1))),
                        ),
                        ..pre
                    }));
                }
            } else if chars_eq(&lines[i], &h_group) {
                let (items, j) = Self::group_vec(&lines, i);
                configuration.proxy_groups = items;
                i = j;
                proof {
                    assert(configuration@ =~~= (DocV {
                        groups: parse_groups_v(
                            clean_lines(dv.subrange(i0 + 1, section_end(dv, i0 + 1))),
                        ),
                        ..pre
                    }));
                }
            } else if chars_eq(&lines[i], &h_rule) {
                let (items, j) = Self::string_vec(&lines, i);
                configuration.rules = items;
                i = j;
                proof {
                    assert(configuration@ =~~= (DocV {
                        rules: clean_lines(dv.subrange(i0 + 1, section_end(dv, i0 + 1))),
                        ..pre
                    }));
                }
            } else if chars_eq(&lines[i], &h_rewrite) {
                let (items, j) = Self::string_vec(&lines, i);
                configuration.url_rewrites = items;
                i = j;
                proof {
                    assert(configuration@ =~~= (DocV {
                        url_rewrites: clean_lines(dv.subrange(i0 + 1, section_end(dv, i0 + 1))),
                        ..pre
                    }));
                }
            } else {
                let l = &lines[i];
                let is_head = l.len() >= 2 && l[0] == '#' && l[1] == '!';
                if is_head {
                    configuration.head = string_from_chars(&lines[i]);
                    proof {
                        assert(configuration@ =~~= (DocV { head: dv[i0], ..pre }));
                    }
                } else {
                    proof {
                        assert(!is_head_line(dv[i0]));
                    }
                }
                i = i + 1;
            }
        }
        proof {
            assert(dv == split_v(config@, '\n'));
            assert(parse_doc_rec(dv, n as int, configuration@) == configuration@);
        }
        Some(configuration)
    }

    /// One serialized section: the header line, then one line per
    /// item.
    pub fn vec_as_string(head: &str, items: &Vec<String>) -> (r: String)
        ensures
            r@ == block_v(head@, items.deep_view()),
    {
        let mut r = String::new();
        r.append(head);
        r.append("\n");
        let joined = join_strings(items, "\n");
        r.append(joined.as_str());
        proof {
            reveal_strlit("\n");
            assert("\n"@ =~= seq!['\n']);
            assert(r@ =~= block_v(head@, items.deep_view()));
        }
        r
    }

    pub fn general_as_string(&self) -> (r: String)
        ensures
            r@ == block_v("[General]"@, self@.general),
    {
        Self::vec_as_string("[General]", &self.general)
    }

    pub fn proxy_as_string(&self) -> (r: String)
        ensures
            r@ == block_v("[Proxy]"@, self@.proxies.map_values(|p: ProxyV| proxy_text_v(p))),
    {
        let mut items: Vec<String> = Vec::new();
        let n = self.proxies.len();
        let mut i: usize = 0;
        proof {
            assert(items.deep_view() =~= self@.proxies.take(0).map_values(
                |p: ProxyV| proxy_text_v(p),
            ));
        }
        while i < n
            invariant
                0 <= i <= n == self.proxies@.len(),
                n == self@.proxies.len(),
                items.deep_view() == self@.proxies.take(i as int).map_values(
                    |p: ProxyV| proxy_text_v(p),
                ),
            decreases n - i,
        {
            let ghost old_dv = items.deep_view();
            let s = self.proxies[i].to_string();
            proof {
                assert(self.proxies@[i as int]@ == self@.proxies[i as int]);
            }
            items.push(s);
            proof {
                assert(items.deep_view() =~~= old_dv.push(proxy_text_v(self@.proxies[
                    i as int
                ])));
                assert(old_dv.push(proxy_text_v(self@.proxies[i as int])) =~= self@.proxies
                    .take(i + 1).map_values(|p: ProxyV| proxy_text_v(p)));
            }
            i = i + 1;
        }
        proof {
            assert(self@.proxies.take(n as int) =~= self@.proxies);
        }
        Self::vec_as_string("[Proxy]", &items)
    }

    pub fn proxy_group_as_string(&self) -> (r: String)
        ensures
            r@ == block_v(
                "[Proxy Group]"@,
                self@.groups.map_values(|g: GroupV| group_text_v(g)),
            ),
    {
        let mut items: Vec<String> = Vec::new();
        let n = self.proxy_groups.len();
        let mut i: usize = 0;
        proof {
            assert(items.deep_view() =~= self@.groups.take(0).map_values(
                |g: GroupV| group_text_v(g),
            ));
        }
        while i < n
            invariant
                0 <= i <= n == self.proxy_groups@.len(),
                n == self@.groups.len(),
                items.deep_view() == self@.groups.take(i as int).map_values(
                    |g: GroupV| group_text_v(g),
                ),
            decreases n - i,
        {
            let ghost old_dv = items.deep_view();
            let s = self.proxy_groups[i].to_string();
            proof {
                assert(self.proxy_groups@[i as int]@ == self@.groups[i as int]);
            }
            items.push(s);
            proof {
                assert(items.deep_view() =~~= old_dv.push(group_text_v(self@.groups[
                    i as int
                ])));
                assert(old_dv.push(group_text_v(self@.groups[i as int])) =~= self@.groups
                    .take(i + 1).map_values(|g: GroupV| group_text_v(g)));
            }
            i = i + 1;
        }
        proof {
            assert(self@.groups.take(n as int) =~= self@.groups);
        }
        Self::vec_as_string("[Proxy Group]", &items)
    }

    pub fn rule_as_string(&self) -> (r: String)
        ensures
            r@ == block_v("[Rule]"@, self@.rules),
    {
        Self::vec_as_string("[Rule]", &self.rules)
    }

    pub fn url_rewrite_as_string(&self) -> (r: String)
        ensures
            r@ == block_v("[URL Rewrite]"@, self@.url_rewrites),
    {
        Self::vec_as_string("[URL Rewrite]", &self.url_rewrites)
    }

    /// The serialized text of the whole document: head and the five
    /// sections in fixed order, blocks separated by one blank line.
    pub fn to_string(&self) -> (r: String)
        ensures
            r@ == doc_text_v(self@),
    {
        let mut blocks: Vec<String> = Vec::new();
        blocks.push(self.head.clone());
        blocks.push(self.general_as_string());
        blocks.push(self.proxy_as_string());
        blocks.push(self.proxy_group_as_string());
        blocks.push(self.rule_as_string());
        blocks.push(self.url_rewrite_as_string());
        let r = join_strings(&blocks, "\n\n");
        proof {
            reveal_strlit("\n\n");
            assert("\n\n"@ =~= seq!['\n', '\n']);
            assert(blocks.deep_view() =~~= seq![
                self@.head,
                block_v("[General]"@, self@.general),
                block_v("[Proxy]"@, self@.proxies.map_values(|p: ProxyV| proxy_text_v(p))),
                block_v(
                    "[Proxy Group]"@,
                    self@.groups.map_values(|g: GroupV| group_text_v(g)),
                ),
                block_v("[Rule]"@, self@.rules),
                block_v("[URL Rewrite]"@, self@.url_rewrites),
            ]);
        }
        r
    }

    /// Appends copies of the other document's proxies to this one;
    /// every other field of both documents is untouched.
    pub fn merge(&mut self, config: &SurgeConfiguration)
        ensures
            final(self)@ == (DocV {
                proxies: old(self)@.proxies + config@.proxies,
                ..old(self)@
            }),
    {
        let n = config.proxies.len();
        let mut i: usize = 0;
        proof {
            assert(self@.proxies =~= old(self)@.proxies + config@.proxies.take(0));
        }
        while i < n
            invariant
                0 <= i <= n == config.proxies.len(),
                n == config@.proxies.len(),
                self@ == (DocV {
                    proxies: old(self)@.proxies + config@.proxies.take(i as int),
                    ..old(self)@
                }),
            decreases n - i,
        {
            let ghost old_v = self@.proxies;
            let p = config.proxies[i].duplicate();
            proof {
                assert(config.proxies@[i as int]@ == config@.proxies[i as int]);
            }
            let ghost pv = p@;
            self.proxies.push(p);
            proof {
                assert(self@.proxies =~~= old_v.push(pv));
                assert(old_v.push(pv) =~= old(self)@.proxies + config@.proxies.take(i + 1));
            }
            i = i + 1;
        }
        proof {
            assert(config@.proxies.take(n as int) =~= config@.proxies);
        }
    }
}

} // verus!
