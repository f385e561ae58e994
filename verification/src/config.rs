//! The rule store and the redirect resolver.
//!
//! A configuration holds an ordered list of rules. A rule carries a key (the
//! configured prefix character followed by the configured key text), the same
//! key with a trailing space, a URL template with its placeholder removed,
//! and the byte position where the encoded query is spliced in. Resolution
//! scans the rules in order and takes the first that matches; with no match
//! the first rule serves as the fallback and the whole input is encoded.
use vstd::prelude::*;

use crate::bytes::contains_seq;
use crate::bytes::ends_with;
use crate::bytes::find_pat;
use crate::bytes::spliced;
use crate::bytes::stripped_once;
use crate::bytes::contains_exec;
use crate::bytes::ends_with_exec;
use crate::bytes::find_first;
use crate::bytes::splice_bytes;
use crate::bytes::strip_once;
use crate::bytes::concat_bytes;
use crate::bytes::lemma_find_pat_spec;
use crate::bytes::lemma_contains_iff_find;
use crate::bytes::lemma_find_pat_unique;
use crate::bytes::matches_at;
use crate::encoding::encoded;
use crate::encoding::encode_bytes;

verus! {

/// The placeholder marker that a URL template must contain: `{{s}}`.
pub open spec fn placeholder() -> Seq<u8> {
    seq![0x7bu8, 0x7bu8, 0x73u8, 0x7du8, 0x7du8]
}

/// The marker `{{s}}` as a byte vector.
fn placeholder_bytes() -> (v: Vec<u8>)
    ensures
        v@ == placeholder(),
{
    let mut v: Vec<u8> = Vec::new();
    v.push(0x7b);
    v.push(0x7b);
    v.push(0x73);
    v.push(0x7d);
    v.push(0x7d);
    proof {
        assert(v@ =~= placeholder());
    }
    v
}

/// Why loading or rebuilding a configuration failed.
#[derive(Debug, Clone, Copy, PartialEq, Eq, Structural)]
pub enum ConfigLoadError {
    /// The configuration file could not be read.
    FileMissing,
    /// The remote configuration source did not answer.
    RemoteUnreachable,
    /// The configuration text did not parse.
    ParseError,
    /// A URL template lacks the `{{s}}` placeholder.
    MissingPlaceholder,
}

/// One redirect rule, ready for matching: the full key (prefix character
/// included), the key followed by one space, the URL template with the
/// placeholder removed, and the byte offset where the placeholder stood.
#[derive(Debug)]
pub struct Replaceable {
    pub key: Vec<u8>,
    pub url: Vec<u8>,
    pub key_with_space: Vec<u8>,
    pub index_of_replace: usize,
}

/// The mathematical model of a rule.
pub struct RuleModel {
    pub key: Seq<u8>,
    pub url: Seq<u8>,
    pub key_with_space: Seq<u8>,
    pub index_of_replace: int,
}

impl View for Replaceable {
    type V = RuleModel;

    open spec fn view(&self) -> RuleModel {
        RuleModel {
            key: self.key@,
            url: self.url@,
            key_with_space: self.key_with_space@,
            index_of_replace: self.index_of_replace as int,
        }
    }
}

impl DeepView for Replaceable {
    type V = RuleModel;

    open spec fn deep_view(&self) -> RuleModel {
        self.view()
    }
}

/// A well-formed rule: non-empty key, the key-with-space really is the key
/// followed by one space, and the splice offset lies within the template.
pub open spec fn rule_wf(r: RuleModel) -> bool {
    &&& r.key.len() >= 1
    &&& r.key_with_space == r.key + seq![0x20u8]
    &&& 0 <= r.index_of_replace <= r.url.len()
}

/// The model of the rule built from `prefix`, `key` and a template `url`
/// that contains the placeholder.
pub open spec fn rule_of(prefix: u8, key: Seq<u8>, url: Seq<u8>) -> RuleModel {
    let full = seq![prefix] + key;
    RuleModel {
        key: full,
        key_with_space: full + seq![0x20u8],
        url: stripped_once(url, placeholder()),
        index_of_replace: match find_pat(url, placeholder(), 0) {
            Some(i) => i,
            None => 0,
        },
    }
}

impl Replaceable {
    /// Build a rule from the prefix character, the bare key text and the raw
    /// URL template. Fails exactly when the template has no `{{s}}`.
    pub fn new(prefix: u8, key: &Vec<u8>, url: &Vec<u8>) -> (r: Result<Replaceable, ConfigLoadError>)
        ensures
            r is Ok <==> contains_seq(url@, placeholder()),
            r matches Ok(rule) ==> rule@ == rule_of(prefix, key@, url@) && rule_wf(rule@),
            r matches Err(e) ==> e == ConfigLoadError::MissingPlaceholder,
    {
        let marker = placeholder_bytes();
        proof {
            lemma_contains_iff_find(url@, placeholder());
        }
        match find_first(url, &marker) {
            None => Err(ConfigLoadError::MissingPlaceholder),
            Some(i) => {
                proof {
                    lemma_find_pat_spec(url@, placeholder(), 0);
                }
                let stripped = strip_once(url, &marker);
                let mut full_key: Vec<u8> = Vec::new();
                full_key.push(prefix);
                let full_key = concat_bytes(&full_key, key);
                let mut space: Vec<u8> = Vec::new();
                space.push(0x20);
                let key_with_space = concat_bytes(&full_key, &space);
                proof {
                    assert(full_key@ =~= seq![prefix] + key@);
                }
                Ok(Replaceable {
                    key: full_key,
                    url: stripped,
                    key_with_space,
                    index_of_replace: i,
                })
            },
        }
    }
}

/// A rule matches a search string if the string ends with the bare key or
/// contains the key followed by a space.
pub open spec fn rule_matches(s: Seq<u8>, r: RuleModel) -> bool {
    ends_with(s, r.key) || contains_seq(s, r.key_with_space)
}

/// The index of the first rule at or after `i` that matches `s`, if any.
pub open spec fn first_match_from(rules: Seq<RuleModel>, s: Seq<u8>, i: int) -> Option<int>
    recommends
        0 <= i <= rules.len(),
    decreases rules.len() - i when 0 <= i <= rules.len()
{
    if i >= rules.len() {
        None
    } else if rule_matches(s, rules[i]) {
        Some(i)
    } else {
        first_match_from(rules, s, i + 1)
    }
}

/// The index of the first rule that matches `s`, if any.
pub open spec fn first_match(rules: Seq<RuleModel>, s: Seq<u8>) -> Option<int> {
    first_match_from(rules, s, 0)
}

/// What `first_match_from` returns: the first matching index at or after
/// `from`, or the absence of any.
pub proof fn lemma_first_match_spec(rules: Seq<RuleModel>, s: Seq<u8>, from: int)
    requires
        0 <= from <= rules.len(),
    ensures
        match first_match_from(rules, s, from) {
            Some(i) => from <= i < rules.len() && rule_matches(s, rules[i]) && forall|j: int|
                from <= j < i ==> !rule_matches(s, rules[j]),
            None => forall|j: int| from <= j < rules.len() ==> !rule_matches(s, rules[j]),
        },
    decreases rules.len() - from,
{
    if from >= rules.len() {
    } else if rule_matches(s, rules[from]) {
    } else {
        lemma_first_match_spec(rules, s, from + 1);
    }
}

/// A match at `i` with none before it is the first match.
pub proof fn lemma_first_match_unique(rules: Seq<RuleModel>, s: Seq<u8>, i: int)
    requires
        0 <= i < rules.len(),
        rule_matches(s, rules[i]),
        forall|j: int| 0 <= j < i ==> !rule_matches(s, rules[j]),
    ensures
        first_match(rules, s) == Some(i),
{
    lemma_first_match_spec(rules, s, 0);
    match first_match(rules, s) {
        Some(k) => {
            if k < i {
                assert(!rule_matches(s, rules[k]));
            } else if k > i {
                assert(!rule_matches(s, rules[i]));
            }
        },
        None => {
            assert(!rule_matches(s, rules[i]));
        },
    }
}

/// The remainder that a matched rule extracts from the search string: one
/// occurrence of the key-with-space removed, then one of the bare key.
pub open spec fn stripped_for_rule(s: Seq<u8>, r: RuleModel) -> Seq<u8> {
    stripped_once(stripped_once(s, r.key_with_space), r.key)
}

/// The resolved redirect URL: the first matching rule's template with the
/// encoded remainder spliced in, or — with no match anywhere — the first
/// rule's template with the whole encoded input spliced in.
pub open spec fn resolved_url(rules: Seq<RuleModel>, s: Seq<u8>) -> Seq<u8>
    recommends
        rules.len() > 0,
{
    match first_match(rules, s) {
        Some(i) => spliced(
            rules[i].url,
            encoded(stripped_for_rule(s, rules[i])),
            rules[i].index_of_replace,
        ),
        None => spliced(rules[0].url, encoded(s), rules[0].index_of_replace),
    }
}

/// The rule store: where the configuration came from, the expanded rules in
/// configuration order, and whether this instance is the configuration host.
#[derive(Debug)]
pub struct Config {
    pub location: Vec<u8>,
    pub sites: Vec<Replaceable>,
    pub is_config_host: bool,
}

impl Config {
    /// Every rule is well-formed.
    pub open spec fn wf(self) -> bool {
        forall|i: int| 0 <= i < self.sites@.len() ==> rule_wf(#[trigger] self.sites@[i]@)
    }

    /// The model of the rule list.
    pub open spec fn rules(self) -> Seq<RuleModel> {
        self.sites.deep_view()
    }

    /// Resolve a search string to the redirect URL, as `resolved_url`
    /// describes: first matching rule in configuration order, key stripped
    /// and remainder percent-encoded; the first rule with the whole input
    /// encoded when nothing matches.
    pub fn find_redirect(&self, search_string: &Vec<u8>) -> (r: Vec<u8>)
        requires
            self.wf(),
            self.sites@.len() > 0,
        ensures
            r@ == resolved_url(self.rules(), search_string@),
    {
        let ghost rules = self.rules();
        proof {
            assert(forall|k: int|
                0 <= k < self.sites@.len() ==> rules[k] == #[trigger] self.sites@[k]@);
        }
        let n = self.sites.len();
        let mut i: usize = 0;
        let mut idx: usize = 0;
        let mut matched: bool = false;
        while i < n && !matched
            invariant
                n == self.sites@.len(),
                rules == self.rules(),
                rules.len() == n,
                i <= n,
                forall|k: int| 0 <= k < n ==> rules[k] == #[trigger] self.sites@[k]@,
                !matched ==> forall|j: int| 0 <= j < i ==> !rule_matches(search_string@, rules[j]),
                matched ==> idx < n && first_match(rules, search_string@) == Some(idx as int),
            decreases n - i + (if matched { 0int } else { 1int }),
        {
            let rule = &self.sites[i];
            if ends_with_exec(search_string, &rule.key) || contains_exec(
                search_string,
                &rule.key_with_space,
            ) {
                idx = i;
                matched = true;
                proof {
                    lemma_first_match_unique(rules, search_string@, i as int);
                }
            } else {
                i = i + 1;
            }
        }
        if matched {
            let rule = &self.sites[idx];
            proof {
                assert(rule_wf(rules[idx as int]));
            }
            let s1 = strip_once(search_string, &rule.key_with_space);
            let s2 = strip_once(&s1, &rule.key);
            let enc = encode_bytes(&s2);
            splice_bytes(&rule.url, &enc, rule.index_of_replace)
        } else {
            proof {
                lemma_first_match_spec(rules, search_string@, 0);
                if first_match(rules, search_string@) is Some {
                    let k = first_match(rules, search_string@)->Some_0;
                    assert(!rule_matches(search_string@, rules[k]));
                }
                assert(rule_wf(rules[0]));
            }
            let rule = &self.sites[0];
            let enc = encode_bytes(search_string);
            splice_bytes(&rule.url, &enc, rule.index_of_replace)
        }
    }

    /// Install a freshly loaded configuration: on success the rule list is
    /// replaced as a whole (location and role are kept); on failure the
    /// error is passed on and this configuration stays exactly as it was.
    pub fn reload_config(&mut self, loaded: Result<Config, ConfigLoadError>) -> (r: Result<
        (),
        ConfigLoadError,
    >)
        ensures
            match loaded {
                Ok(c) => r is Ok && final(self).sites == c.sites && final(self).location
                    == old(self).location && final(self).is_config_host == old(
                    self,
                ).is_config_host,
                Err(e) => r == Err::<(), ConfigLoadError>(e) && *final(self) == *old(self),
            },
    {
        match loaded {
            Ok(c) => {
                self.sites = c.sites;
                Ok(())
            },
            Err(e) => Err(e),
        }
    }
}

/// One site entry as the configuration source hands it over: the bare key
/// text, the raw URL template, and any alias key texts.
#[derive(Debug)]
pub struct ConfigEntry {
    pub key: Vec<u8>,
    pub url: Vec<u8>,
    pub aliases: Vec<Vec<u8>>,
}

/// The mathematical model of a site entry.
pub struct EntryModel {
    pub key: Seq<u8>,
    pub url: Seq<u8>,
    pub aliases: Seq<Seq<u8>>,
}

impl View for ConfigEntry {
    type V = EntryModel;

    open spec fn view(&self) -> EntryModel {
        EntryModel { key: self.key@, url: self.url@, aliases: self.aliases.deep_view() }
    }
}

impl DeepView for ConfigEntry {
    type V = EntryModel;

    open spec fn deep_view(&self) -> EntryModel {
        self.view()
    }
}

/// An entry can be expanded: its template contains the placeholder.
pub open spec fn entry_ok(e: EntryModel) -> bool {
    contains_seq(e.url, placeholder())
}

/// Every entry can be expanded.
pub open spec fn entries_ok(entries: Seq<EntryModel>) -> bool {
    forall|i: int| 0 <= i < entries.len() ==> entry_ok(#[trigger] entries[i])
}

/// The rules one entry expands to: one rule for each alias, in declaration
/// order, then one for the primary key, all sharing the entry's template.
pub open spec fn entry_rules(prefix: u8, e: EntryModel) -> Seq<RuleModel> {
    e.aliases.map_values(|k: Seq<u8>| rule_of(prefix, k, e.url)) + seq![
        rule_of(prefix, e.key, e.url),
    ]
}

/// The rules a whole entry list expands to, in configuration order.
pub open spec fn expanded_rules(prefix: u8, entries: Seq<EntryModel>) -> Seq<RuleModel>
    decreases entries.len(),
{
    if entries.len() == 0 {
        Seq::empty()
    } else {
        entry_rules(prefix, entries[0]) + expanded_rules(prefix, entries.drop_first())
    }
}

/// Expansion distributes over appending one entry at the end.
proof fn lemma_expanded_snoc(prefix: u8, entries: Seq<EntryModel>, e: EntryModel)
    ensures
        expanded_rules(prefix, entries.push(e)) == expanded_rules(prefix, entries) + entry_rules(
            prefix,
            e,
        ),
    decreases entries.len(),
{
    if entries.len() == 0 {
        let p = entries.push(e);
        assert(p[0] == e);
        assert(p.drop_first() =~= Seq::<EntryModel>::empty());
        assert(expanded_rules(prefix, p) == entry_rules(prefix, e) + expanded_rules(
            prefix,
            p.drop_first(),
        ));
        assert(expanded_rules(prefix, Seq::<EntryModel>::empty()) == Seq::<RuleModel>::empty());
        assert(expanded_rules(prefix, p) =~= entry_rules(prefix, e));
        assert(expanded_rules(prefix, entries) + entry_rules(prefix, e) =~= entry_rules(
            prefix,
            e,
        ));
    } else {
        assert(entries.push(e).drop_first() =~= entries.drop_first().push(e));
        lemma_expanded_snoc(prefix, entries.drop_first(), e);
        assert(expanded_rules(prefix, entries.push(e)) =~= expanded_rules(prefix, entries)
            + entry_rules(prefix, e));
    }
}

impl Config {
    /// Build a configuration from parsed site entries: each entry expands
    /// into one rule per alias followed by one for its primary key, in
    /// order. Fails exactly when some template lacks the placeholder; then
    /// nothing is built.
    pub fn from_entries(
        location: &Vec<u8>,
        is_config_host: bool,
        prefix: u8,
        entries: &Vec<ConfigEntry>,
    ) -> (r: Result<Config, ConfigLoadError>)
        ensures
            r is Ok <==> entries_ok(entries.deep_view()),
            r matches Ok(c) ==> c.wf() && c.rules() == expanded_rules(prefix, entries.deep_view())
                && c.location@ == location@ && c.is_config_host == is_config_host
                && c.sites@.len() >= entries@.len(),
            r matches Err(e) ==> e == ConfigLoadError::MissingPlaceholder,
    {
        let ghost deep = entries.deep_view();
        proof {
            assert(forall|k: int| 0 <= k < entries@.len() ==> deep[k] == #[trigger] entries@[k]@);
        }
        let mut sites: Vec<Replaceable> = Vec::new();
        let n = entries.len();
        let mut i: usize = 0;
        while i < n
            invariant
                n == entries@.len(),
                deep == entries.deep_view(),
                deep.len() == n,
                forall|k: int| 0 <= k < n ==> deep[k] == #[trigger] entries@[k]@,
                i <= n,
                entries_ok(deep.subrange(0, i as int)),
                sites@.len() >= i,
                sites.deep_view() == expanded_rules(prefix, deep.subrange(0, i as int)),
                forall|k: int| 0 <= k < sites@.len() ==> rule_wf(#[trigger] sites@[k]@),
            decreases n - i,
        {
            let entry = &entries[i];
            let ghost e = deep[i as int];
            let ghost alias_rules = e.aliases.map_values(
                |k: Seq<u8>| rule_of(prefix, k, e.url),
            );
            let ghost sites_before = sites.deep_view();
            let m = entry.aliases.len();
            let mut j: usize = 0;
            proof {
                assert(forall|k: int|
                    0 <= k < m ==> e.aliases[k] == #[trigger] entry.aliases@[k]@);
            }
            while j < m
                invariant
                    deep == entries.deep_view(),
                    0 <= i < deep.len(),
                    e == deep[i as int],
                    m == entry.aliases@.len(),
                    e == entry@,
                    e.aliases.len() == m,
                    forall|k: int| 0 <= k < m ==> e.aliases[k] == #[trigger] entry.aliases@[k]@,
                    alias_rules == e.aliases.map_values(
                        |k: Seq<u8>| rule_of(prefix, k, e.url),
                    ),
                    j <= m,
                    sites.deep_view() == sites_before + alias_rules.subrange(0, j as int),
                    forall|k: int| 0 <= k < sites@.len() ==> rule_wf(#[trigger] sites@[k]@),
                decreases m - j,
            {
                match Replaceable::new(prefix, &entry.aliases[j], &entry.url) {
                    Err(err) => {
                        proof {
                            assert(!entry_ok(deep[i as int]));
                            assert(!entries_ok(deep));
                        }
                        return Err(err);
                    },
                    Ok(rule) => {
                        let ghost before = sites.deep_view();
                        sites.push(rule);
                        proof {
                            assert(sites.deep_view() =~= before.push(rule@));
                            assert(alias_rules[j as int] == rule_of(
                                prefix,
                                e.aliases[j as int],
                                e.url,
                            ));
                            assert(sites.deep_view() =~= sites_before + alias_rules.subrange(
                                0,
                                j + 1,
                            ));
                        }
                    },
                }
                j = j + 1;
            }
            match Replaceable::new(prefix, &entry.key, &entry.url) {
                Err(err) => {
                    proof {
                        assert(!entry_ok(deep[i as int]));
                    }
                    return Err(err);
                },
                Ok(rule) => {
                    let ghost before = sites.deep_view();
                    sites.push(rule);
                    proof {
                        assert(sites.deep_view() =~= before.push(rule@));
                        assert(alias_rules.subrange(0, m as int) =~= alias_rules);
                        assert(sites.deep_view() =~= sites_before + entry_rules(prefix, e));
                        assert(deep.subrange(0, i + 1).drop_last() =~= deep.subrange(
                            0,
                            i as int,
                        ));
                        assert(deep.subrange(0, i + 1) =~= deep.subrange(0, i as int).push(e));
                        lemma_expanded_snoc(prefix, deep.subrange(0, i as int), e);
                        assert(entries_ok(deep.subrange(0, i + 1)));
                    }
                },
            }
            i = i + 1;
        }
        proof {
            assert(deep.subrange(0, n as int) =~= deep);
        }
        Ok(Config { location: location.clone(), sites, is_config_host })
    }
}

/// Stripping a pattern off a string that starts with it leaves exactly the
/// remainder.
pub proof fn lemma_strip_prefix(pat: Seq<u8>, rest: Seq<u8>)
    ensures
        stripped_once(pat + rest, pat) == rest,
{
    let s = pat + rest;
    assert(s.subrange(0, pat.len() as int) =~= pat);
    assert(matches_at(s, pat, 0));
    lemma_find_pat_unique(s, pat, 0);
    assert(s.subrange(0, 0) + s.skip(pat.len() as int) =~= rest);
}

/// Stripping a pattern that does not occur changes nothing.
pub proof fn lemma_strip_absent(s: Seq<u8>, pat: Seq<u8>)
    requires
        !contains_seq(s, pat),
    ensures
        stripped_once(s, pat) == s,
{
    lemma_contains_iff_find(s, pat);
}

/// An alias resolves exactly as its primary key does, for the same
/// remainder: two rules that share a template and splice offset give the
/// same redirect URL on `key_with_space + rest`, provided each input indeed
/// selects its own rule and the remainder does not itself contain either
/// key (a remainder containing a key would be stripped further).
pub proof fn lemma_alias_resolves_like_primary(
    rules: Seq<RuleModel>,
    rest: Seq<u8>,
    i: int,
    j: int,
)
    requires
        0 <= i < rules.len(),
        0 <= j < rules.len(),
        rules[i].url == rules[j].url,
        rules[i].index_of_replace == rules[j].index_of_replace,
        first_match(rules, rules[i].key_with_space + rest) == Some(i),
        first_match(rules, rules[j].key_with_space + rest) == Some(j),
        !contains_seq(rest, rules[i].key),
        !contains_seq(rest, rules[j].key),
    ensures
        resolved_url(rules, rules[i].key_with_space + rest) == resolved_url(
            rules,
            rules[j].key_with_space + rest,
        ),
{
    lemma_strip_prefix(rules[i].key_with_space, rest);
    lemma_strip_absent(rest, rules[i].key);
    assert(stripped_for_rule(rules[i].key_with_space + rest, rules[i]) == rest);
    lemma_strip_prefix(rules[j].key_with_space, rest);
    lemma_strip_absent(rest, rules[j].key);
    assert(stripped_for_rule(rules[j].key_with_space + rest, rules[j]) == rest);
}

/// Every rule one entry expands to shares the entry's template and splice
/// offset: an alias differs from the primary key only in the key itself.
pub proof fn lemma_entry_rules_share_template(prefix: u8, e: EntryModel, i: int, j: int)
    requires
        0 <= i < entry_rules(prefix, e).len(),
        0 <= j < entry_rules(prefix, e).len(),
    ensures
        entry_rules(prefix, e)[i].url == entry_rules(prefix, e)[j].url,
        entry_rules(prefix, e)[i].index_of_replace == entry_rules(prefix, e)[j].index_of_replace,
{
}

/// With no matching rule anywhere, resolution falls back to the first rule
/// and splices in the whole input, encoded, with nothing stripped.
pub proof fn lemma_fallback_uses_whole_input(rules: Seq<RuleModel>, s: Seq<u8>)
    requires
        rules.len() > 0,
        forall|i: int| 0 <= i < rules.len() ==> !rule_matches(s, #[trigger] rules[i]),
    ensures
        resolved_url(rules, s) == spliced(rules[0].url, encoded(s), rules[0].index_of_replace),
{
    lemma_first_match_spec(rules, s, 0);
    if first_match(rules, s) is Some {
        let k = first_match(rules, s)->Some_0;
        assert(rule_matches(s, rules[k]));
    }
}

/// A successful reload is fully visible: a configuration whose rule list
/// was replaced by the loaded one resolves every search string exactly as
/// the loaded configuration does.
pub proof fn lemma_reload_visibility(after: Config, loaded: Config, s: Seq<u8>)
    requires
        after.sites == loaded.sites,
    ensures
        resolved_url(after.rules(), s) == resolved_url(loaded.rules(), s),
{
}

/// First-match priority: when an earlier rule matches, no later rule is
/// ever chosen, whatever the form of either match.
pub proof fn lemma_earlier_rule_wins(rules: Seq<RuleModel>, s: Seq<u8>, i: int)
    requires
        0 <= i < rules.len(),
        rule_matches(s, rules[i]),
    ensures
        first_match(rules, s) is Some,
        first_match(rules, s)->Some_0 <= i,
{
    lemma_first_match_spec(rules, s, 0);
    match first_match(rules, s) {
        Some(k) => {
            if k > i {
                assert(!rule_matches(s, rules[i]));
            }
        },
        None => {
            assert(!rule_matches(s, rules[i]));
        },
    }
}

/// `host` with one trailing slash removed, if present, and `path` appended.
pub open spec fn appended_url(host: Seq<u8>, path: Seq<u8>) -> Seq<u8> {
    if host.len() > 0 && host.last() == 0x2fu8 {
        host.drop_last() + path
    } else {
        host + path
    }
}

/// Append `path` to `host`, dropping one trailing `/` from `host` first so
/// that the result has no doubled slash.
pub fn append_to_url(host: &Vec<u8>, path: &Vec<u8>) -> (r: Vec<u8>)
    ensures
        r@ == appended_url(host@, path@),
{
    let mut base = host.clone();
    if base.len() > 0 && base[base.len() - 1] == 0x2f {
        let ghost before = base@;
        base.pop();
        proof {
            assert(base@ =~= before.drop_last());
        }
    }
    concat_bytes(&base, path)
}

/// The well-known path on which a host serves its raw configuration text.
pub fn get_config_url(host: &Vec<u8>) -> (r: Vec<u8>)
    ensures
        r@ == appended_url(host@, seq![0x2fu8, 0x75u8, 0x2fu8]),  // "/u/"
{
    let mut path: Vec<u8> = Vec::new();
    path.push(0x2f);
    path.push(0x75);
    path.push(0x2f);
    proof {
        assert(path@ =~= seq![0x2fu8, 0x75u8, 0x2fu8]);
    }
    append_to_url(host, &path)
}

/// The well-known path on which an instance accepts reload requests.
pub fn get_reload_url(host: &Vec<u8>) -> (r: Vec<u8>)
    ensures
        r@ == appended_url(host@, seq![0x2fu8, 0x72u8, 0x2fu8]),  // "/r/"
{
    let mut path: Vec<u8> = Vec::new();
    path.push(0x2f);
    path.push(0x72);
    path.push(0x2f);
    proof {
        assert(path@ =~= seq![0x2fu8, 0x72u8, 0x2fu8]);
    }
    append_to_url(host, &path)
}

} // verus!
