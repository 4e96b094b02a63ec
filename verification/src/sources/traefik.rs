//! Names from the routing rules of a traefik server.

use vstd::prelude::*;
use crate::backoff::{handed_out, Backoff};
use crate::dns::record::{
    fold_data, fold_record, ip_data, own_alias, record_views, RData, Record, RecordView,
};
use crate::dns::rr::RDataView;
use crate::dns::set::{
    holds, law_append_is_union, no_records, with_records, RecordSet, RecordSetView,
};
use crate::ip::IpAddr;
use crate::name::{fold, name_from_text, Fqdn};
use crate::run_loop::LoopResult;
use crate::text::{
    chars_of, free_of, is_padding, join, law_padding_is_trimmed, part_of, trim, trimmed,
};
use crate::url::{host_of_url, join_url, url_host, url_joined};

verus! {

/// How long to wait between two looks at the rules, in milliseconds, unless configured.
pub const POLL_INTERVAL_MS: u64 = 15000;

/// A traefik server. The records that are made lead to the address where one is given, and to the
/// host of the URL otherwise.
#[derive(Debug)]
pub struct TraefikConfig {
    pub url: String,
    pub address: Option<RData>,
    pub interval_ms: Option<u64>,
}

/// A router of a traefik server.
#[derive(Debug)]
pub struct ApiRouter {
    pub name: String,
    pub rule: String,
}

/// Why a rule cannot be read.
#[derive(Clone, Copy, PartialEq, Eq, Debug, Hash, Structural)]
pub enum RuleError {
    /// A character stands where a string should begin.
    ExpectedString(char),
    /// A character stands where a quote that is escaped should.
    ControlCharacter(char),
    /// A character stands where a comma or the end should.
    ExpectedComma(char),
    /// The rule ends within a string.
    UnexpectedEnd,
}

/// Where in a list of strings a place is: before a string, within one, after an escape within one,
/// or after one.
#[verifier::ext_equal]
pub enum Place {
    Pre,
    Backtick(Seq<char>),
    Quote(Seq<char>),
    EscapedQuote(Seq<char>),
    Post,
}

/// One more character of a list of strings: the place after it, with the strings so far.
pub open spec fn next_place(place: Place, strings: Seq<Seq<char>>, c: char) -> Result<
    (Place, Seq<Seq<char>>),
    RuleError,
> {
    match place {
        Place::Pre => if c == ' ' || c == '\t' {
            Ok((Place::Pre, strings))
        } else if c == '`' {
            Ok((Place::Backtick(Seq::empty()), strings))
        } else if c == '"' {
            Ok((Place::Quote(Seq::empty()), strings))
        } else {
            Err(RuleError::ExpectedString(c))
        },
        Place::Backtick(s) => if c == '`' {
            Ok((Place::Post, strings.push(s)))
        } else {
            Ok((Place::Backtick(s.push(c)), strings))
        },
        Place::Quote(s) => if c == '"' {
            Ok((Place::Post, strings.push(s)))
        } else if c == '\\' {
            Ok((Place::EscapedQuote(s), strings))
        } else {
            Ok((Place::Quote(s.push(c)), strings))
        },
        Place::EscapedQuote(s) => if c == '"' {
            Ok((Place::Quote(s.push('"')), strings))
        } else {
            Err(RuleError::ControlCharacter(c))
        },
        Place::Post => if c == ' ' || c == '\t' {
            Ok((Place::Post, strings))
        } else if c == ',' {
            Ok((Place::Pre, strings))
        } else {
            Err(RuleError::ExpectedComma(c))
        },
    }
}

/// The place at the end of a text, with the strings in it.
pub open spec fn scanned(text: Seq<char>) -> Result<(Place, Seq<Seq<char>>), RuleError>
    decreases text.len(),
{
    if text.len() == 0 {
        Ok((Place::Pre, Seq::empty()))
    } else {
        match scanned(text.drop_last()) {
            Ok((place, strings)) => next_place(place, strings, text.last()),
            Err(e) => Err(e),
        }
    }
}

/// The strings of a list: in backticks or in quotes, with commas between them and maybe one at the
/// end.
pub open spec fn listed_strings(text: Seq<char>) -> Result<Seq<Seq<char>>, RuleError> {
    match scanned(text) {
        Ok((Place::Pre, strings)) => Ok(strings),
        Ok((Place::Post, strings)) => Ok(strings),
        Ok(_) => Err(RuleError::UnexpectedEnd),
        Err(e) => Err(e),
    }
}

/// The names among strings.
pub open spec fn names_of(strings: Seq<Seq<char>>) -> Seq<Seq<Seq<u8>>>
    decreases strings.len(),
{
    if strings.len() == 0 {
        Seq::empty()
    } else {
        let rest = names_of(strings.drop_last());
        match name_from_text(strings.last()) {
            Some(name) => rest.push(name),
            None => rest,
        }
    }
}

/// Whether a text is a rule on hosts.
pub open spec fn is_host_rule(rule: Seq<char>) -> bool {
    rule.len() >= 6 && rule.take(5) == seq!['H', 'o', 's', 't', '('] && rule.last() == ')'
}

/// The hosts that one rule names. Rules on other things name none.
pub open spec fn single_hosts(rule: Seq<char>) -> Result<Seq<Seq<Seq<u8>>>, RuleError> {
    if !is_host_rule(rule) {
        Ok(Seq::empty())
    } else {
        match listed_strings(rule.subrange(5, rule.len() - 1)) {
            Ok(strings) => Ok(names_of(strings)),
            Err(e) => Err(e),
        }
    }
}

/// The first place of two bars in a text, or its length.
pub open spec fn bars(s: Seq<char>) -> int
    decreases s.len(),
{
    if s.len() < 2 {
        s.len() as int
    } else if s[0] == '|' && s[1] == '|' {
        0
    } else {
        1 + bars(s.drop_first())
    }
}

/// The rules that are combined in one by two bars.
pub open spec fn alternatives(s: Seq<char>) -> Seq<Seq<char>>
    decreases s.len(),
{
    let k = bars(s);
    if 0 <= k && k + 2 <= s.len() {
        seq![s.take(k)] + alternatives(s.skip(k + 2))
    } else {
        seq![s]
    }
}

/// The hosts that rules name, up to the first that cannot be read.
pub open spec fn all_hosts(rules: Seq<Seq<char>>) -> Result<Seq<Seq<Seq<u8>>>, RuleError>
    decreases rules.len(),
{
    if rules.len() == 0 {
        Ok(Seq::empty())
    } else {
        match all_hosts(rules.drop_last()) {
            Ok(hosts) => match single_hosts(trimmed(rules.last())) {
                Ok(more) => Ok(hosts + more),
                Err(e) => Err(e),
            },
            Err(e) => Err(e),
        }
    }
}

/// The hosts that a rule names.
pub open spec fn rule_hosts(rule: Seq<char>) -> Result<Seq<Seq<Seq<u8>>>, RuleError> {
    all_hosts(alternatives(rule))
}

/// Where in a list of strings the reading of it is.
#[derive(Debug)]
enum State {
    Pre,
    Backtick(String),
    Quote(String),
    EscapedQuote(String),
    Post,
}

impl State {
    /// The place that the reading is at.
    spec fn place(self) -> Place {
        match self {
            State::Pre => Place::Pre,
            State::Backtick(s) => Place::Backtick(s@),
            State::Quote(s) => Place::Quote(s@),
            State::EscapedQuote(s) => Place::EscapedQuote(s@),
            State::Post => Place::Post,
        }
    }
}

/// The names of a list.
pub open spec fn host_views(hosts: Seq<Fqdn>) -> Seq<Seq<Seq<u8>>> {
    Seq::new(hosts.len(), |i: int| hosts[i]@)
}

/// Adds the name that a string stands for, if it is one.
fn add_host(hosts: &mut Vec<Fqdn>, text: &str, Ghost(strings): Ghost<Seq<Seq<char>>>)
    requires
        host_views(old(hosts)@) == names_of(strings),
    ensures
        host_views(final(hosts)@) == names_of(strings.push(text@)),
{
    assert(strings.push(text@).drop_last() =~= strings);
    let ghost before = host_views(hosts@);
    if let Ok(fqdn) = Fqdn::from_text(text) {
        hosts.push(fqdn);
        assert(host_views(hosts@) =~= before.push(fqdn@));
    }
}

/// Reads one rule.
pub fn parse_single_host(rule: &[char]) -> (r: Result<Vec<Fqdn>, RuleError>)
    ensures
        match r {
            Ok(hosts) => single_hosts(rule@) == Ok::<Seq<Seq<Seq<u8>>>, RuleError>(
                host_views(hosts@),
            ),
            Err(e) => single_hosts(rule@) == Err::<Seq<Seq<Seq<u8>>>, RuleError>(e),
        },
{
    let mut hosts: Vec<Fqdn> = Vec::new();
    assert(host_views(hosts@) =~= Seq::empty());
    let n: usize = rule.len();
    if n < 6 || rule[0] != 'H' || rule[1] != 'o' || rule[2] != 's' || rule[3] != 't' || rule[4]
        != '(' || rule[n - 1] != ')' {
        proof {
            if is_host_rule(rule@) {
                let start = rule@.take(5);
                assert(start[0] == 'H' && start[1] == 'o' && start[2] == 's' && start[3] == 't'
                    && start[4] == '(');
            }
        }
        return Ok(hosts);
    }
    assert(rule@.take(5) =~= seq!['H', 'o', 's', 't', '(']);
    let ghost inner = rule@.subrange(5, n - 1);
    let ghost mut strings: Seq<Seq<char>> = Seq::empty();
    let mut state = State::Pre;
    let mut i: usize = 5;
    assert(inner.take(0) =~= Seq::empty());
    while i < n - 1
        invariant
            5 <= i <= n - 1,
            n == rule.len(),
            is_host_rule(rule@),
            inner == rule@.subrange(5, n - 1),
            scanned(inner.take(i - 5)) == Ok::<(Place, Seq<Seq<char>>), RuleError>(
                (state.place(), strings),
            ),
            host_views(hosts@) == names_of(strings),
        decreases n - i,
    {
        let c = rule[i];
        let ghost part = inner.take(i - 5 + 1);
        let ghost place = state.place();
        assert(part.drop_last() =~= inner.take(i - 5));
        assert(part.last() == c);
        let next = match state {
            State::Pre => match c {
                ' ' | '\t' => Ok(State::Pre),
                '`' => Ok(State::Backtick(String::new())),
                '"' => Ok(State::Quote(String::new())),
                _ => Err(RuleError::ExpectedString(c)),
            },
            State::Backtick(st) => match c {
                '`' => {
                    add_host(&mut hosts, st.as_str(), Ghost(strings));
                    proof {
                        strings = strings.push(st@);
                    }
                    Ok(State::Post)
                },
                _ => {
                    let mut st = st;
                    st.push(c);
                    Ok(State::Backtick(st))
                },
            },
            State::Quote(st) => match c {
                '"' => {
                    add_host(&mut hosts, st.as_str(), Ghost(strings));
                    proof {
                        strings = strings.push(st@);
                    }
                    Ok(State::Post)
                },
                '\\' => Ok(State::EscapedQuote(st)),
                _ => {
                    let mut st = st;
                    st.push(c);
                    Ok(State::Quote(st))
                },
            },
            State::EscapedQuote(st) => match c {
                '"' => {
                    let mut st = st;
                    st.push('"');
                    Ok(State::Quote(st))
                },
                _ => Err(RuleError::ControlCharacter(c)),
            },
            State::Post => match c {
                ' ' | '\t' => Ok(State::Post),
                ',' => Ok(State::Pre),
                _ => Err(RuleError::ExpectedComma(c)),
            },
        };
        match next {
            Ok(next) => {
                state = next;
            },
            Err(e) => {
                proof {
                    lemma_scan_fails(inner, i - 5 + 1);
                }
                return Err(e);
            },
        }
        i += 1;
    }
    assert(inner.take(i - 5) =~= inner);
    match state {
        State::Pre => Ok(hosts),
        State::Post => Ok(hosts),
        _ => Err(RuleError::UnexpectedEnd),
    }
}

/// What cannot be read stays so, whatever follows it.
proof fn lemma_scan_fails(text: Seq<char>, k: int)
    requires
        0 <= k <= text.len(),
        scanned(text.take(k)) is Err,
    ensures
        scanned(text) == scanned(text.take(k)),
    decreases text.len() - k,
{
    if k < text.len() {
        assert(text.take(k + 1).drop_last() =~= text.take(k));
        lemma_scan_fails(text, k + 1);
    } else {
        assert(text.take(k) =~= text);
    }
}

/// Rules of which one cannot be read name no hosts.
proof fn lemma_hosts_fail(rules: Seq<Seq<char>>, k: int)
    requires
        0 <= k <= rules.len(),
        all_hosts(rules.take(k)) is Err,
    ensures
        all_hosts(rules) == all_hosts(rules.take(k)),
    decreases rules.len() - k,
{
    if k < rules.len() {
        assert(rules.take(k + 1).drop_last() =~= rules.take(k));
        lemma_hosts_fail(rules, k + 1);
    } else {
        assert(rules.take(k) =~= rules);
    }
}

/// Two bars stand at their first place, with none before them.
proof fn lemma_bars_is(s: Seq<char>, k: int)
    requires
        0 <= k <= s.len(),
        forall|i: int| 0 <= i < k && i + 1 < s.len() ==> !(#[trigger] s[i] == '|' && s[i + 1] == '|'),
        k + 1 < s.len() && s[k] == '|' && s[k + 1] == '|' || k == s.len(),
    ensures
        bars(s) == k,
    decreases s.len(),
{
    if s.len() >= 2 && k > 0 {
        let rest = s.drop_first();
        assert(!(s[0] == '|' && s[1] == '|'));
        assert forall|i: int| 0 <= i < k - 1 && i + 1 < rest.len() implies !(#[trigger] rest[i]
            == '|' && rest[i + 1] == '|') by {
            assert(s[i + 1] == rest[i] && s[i + 2] == rest[i + 1]);
        }
        lemma_bars_is(rest, k - 1);
    }
}

/// The first place of two bars from some place on, or the length of the text.
fn find_bars(s: &[char], from: usize) -> (r: usize)
    requires
        from <= s.len(),
    ensures
        from <= r <= s.len(),
        r - from == bars(s@.skip(from as int)),
        r < s.len() ==> r + 2 <= s.len(),
{
    let ghost rest = s@.skip(from as int);
    let mut i: usize = from;
    while i < s.len()
        invariant
            from <= i <= s.len(),
            rest == s@.skip(from as int),
            forall|j: int|
                0 <= j < i - from && j + 1 < rest.len() ==> !(#[trigger] rest[j] == '|' && rest[j
                    + 1] == '|'),
        decreases s.len() - i,
    {
        assert(rest[i - from] == s@[i as int]);
        if i + 1 < s.len() {
            assert(rest[i - from + 1] == s@[i + 1]);
            if s[i] == '|' && s[i + 1] == '|' {
                proof {
                    lemma_bars_is(rest, i - from);
                }
                return i;
            }
        }
        i += 1;
    }
    proof {
        lemma_bars_is(rest, i - from);
    }
    i
}

/// Adds the hosts that one of several rules names.
fn add_rule(hosts: &mut Vec<Fqdn>, rule: &[char], Ghost(rules): Ghost<Seq<Seq<char>>>) -> (r:
    Result<(), RuleError>)
    requires
        all_hosts(rules) == Ok::<Seq<Seq<Seq<u8>>>, RuleError>(host_views(old(hosts)@)),
    ensures
        match r {
            Ok(_) => all_hosts(rules.push(rule@)) == Ok::<Seq<Seq<Seq<u8>>>, RuleError>(
                host_views(final(hosts)@),
            ),
            Err(e) => all_hosts(rules.push(rule@)) == Err::<Seq<Seq<Seq<u8>>>, RuleError>(e),
        },
{
    assert(rules.push(rule@).drop_last() =~= rules);
    let ghost before = host_views(hosts@);
    let item = trim(rule);
    match parse_single_host(item.as_slice()) {
        Ok(more) => {
            let mut more = more;
            let ghost added = host_views(more@);
            hosts.append(&mut more);
            assert(host_views(hosts@) =~= before + added);
            Ok(())
        },
        Err(e) => Err(e),
    }
}

/// The hosts that a rule names.
pub fn parse_hosts(rule: &str) -> (r: Result<Vec<Fqdn>, RuleError>)
    ensures
        match r {
            Ok(hosts) => rule_hosts(rule@) == Ok::<Seq<Seq<Seq<u8>>>, RuleError>(
                host_views(hosts@),
            ),
            Err(e) => rule_hosts(rule@) == Err::<Seq<Seq<Seq<u8>>>, RuleError>(e),
        },
{
    let chars = chars_of(rule);
    let ghost all = alternatives(rule@);
    let ghost mut done: Seq<Seq<char>> = Seq::empty();
    let mut hosts: Vec<Fqdn> = Vec::new();
    let mut from: usize = 0;
    assert(host_views(hosts@) =~= Seq::empty());
    assert(rule@.skip(0) =~= rule@);
    assert(all =~= done + alternatives(rule@.skip(0)));
    loop
        invariant
            from <= chars.len(),
            chars@ == rule@,
            all == alternatives(rule@),
            all == done + alternatives(rule@.skip(from as int)),
            all_hosts(done) == Ok::<Seq<Seq<Seq<u8>>>, RuleError>(host_views(hosts@)),
        decreases chars.len() - from,
    {
        let k: usize = find_bars(chars.as_slice(), from);
        let part = part_of(chars.as_slice(), from, k);
        let ghost rest = rule@.skip(from as int);
        assert(part@ =~= rest.take(k - from));
        let result = add_rule(&mut hosts, part.as_slice(), Ghost(done));
        proof {
            assert(all.take(done.len() as int + 1) =~= done.push(part@)) by {
                assert(alternatives(rest)[0] =~= part@);
            }
        }
        if let Err(e) = result {
            proof {
                lemma_hosts_fail(all, done.len() as int + 1);
            }
            return Err(e);
        }
        if k >= chars.len() {
            assert(part@ =~= rest);
            assert(all =~= done.push(part@));
            return Ok(hosts);
        }
        proof {
            assert(rest.skip(k - from + 2) =~= rule@.skip(k + 2));
            done = done.push(part@);
            assert(all =~= done + alternatives(rule@.skip(k + 2)));
        }
        from = k + 2;
    }
}

/// A string in backticks.
pub open spec fn backticked(s: Seq<char>) -> Seq<char> {
    seq!['`'] + s + seq!['`']
}

/// Strings in backticks with commas between them.
pub open spec fn backticked_list(strings: Seq<Seq<char>>) -> Seq<char> {
    join(
        Seq::new(strings.len(), |i: int| backticked(strings[i])),
        seq![',', ' '],
    )
}

/// The characters of a string in backticks are read into it.
proof fn lemma_scan_inside(start: Seq<char>, strings: Seq<Seq<char>>, s: Seq<char>)
    requires
        scanned(start) == Ok::<(Place, Seq<Seq<char>>), RuleError>((Place::Pre, strings)),
        free_of(s, '`'),
    ensures
        scanned(start + seq!['`'] + s) == Ok::<(Place, Seq<Seq<char>>), RuleError>(
            (Place::Backtick(s), strings),
        ),
    decreases s.len(),
{
    let text = start + seq!['`'] + s;
    if s.len() == 0 {
        assert(text.drop_last() =~= start);
        assert(s =~= Seq::empty());
    } else {
        let front = s.drop_last();
        assert(free_of(front, '`')) by {
            assert forall|i: int| 0 <= i < front.len() implies front[i] != '`' by {
                assert(front[i] == s[i]);
            }
        }
        lemma_scan_inside(start, strings, front);
        assert(text.drop_last() =~= start + seq!['`'] + front);
        assert(text.last() == s[s.len() - 1]);
        assert(front.push(s.last()) =~= s);
    }
}

/// A string in backticks is read.
proof fn lemma_scan_string(start: Seq<char>, strings: Seq<Seq<char>>, s: Seq<char>)
    requires
        scanned(start) == Ok::<(Place, Seq<Seq<char>>), RuleError>((Place::Pre, strings)),
        free_of(s, '`'),
    ensures
        scanned(start + backticked(s)) == Ok::<(Place, Seq<Seq<char>>), RuleError>(
            (Place::Post, strings.push(s)),
        ),
{
    lemma_scan_inside(start, strings, s);
    let text = start + backticked(s);
    assert(text.drop_last() =~= start + seq!['`'] + s);
    assert(text.last() == '`');
}

/// Strings in backticks with commas between them are read.
proof fn lemma_scan_list(strings: Seq<Seq<char>>)
    requires
        forall|i: int| 0 <= i < strings.len() ==> free_of(#[trigger] strings[i], '`'),
    ensures
        strings.len() > 0 ==> scanned(backticked_list(strings)) == Ok::<
            (Place, Seq<Seq<char>>),
            RuleError,
        >((Place::Post, strings)),
    decreases strings.len(),
{
    if strings.len() > 0 {
        let front = strings.drop_last();
        let whole = Seq::new(strings.len(), |i: int| backticked(strings[i]));
        let parts = Seq::new(front.len(), |i: int| backticked(front[i]));
        assert(whole.drop_last() =~= parts);
        assert forall|i: int| 0 <= i < front.len() implies free_of(#[trigger] front[i], '`') by {
            assert(front[i] == strings[i]);
        }
        assert(free_of(strings[strings.len() - 1], '`'));
        lemma_scan_list(front);
        if front.len() == 0 {
            let none = Seq::<char>::empty();
            lemma_scan_string(none, Seq::empty(), strings.last());
            assert(none + backticked(strings.last()) =~= backticked_list(strings));
            assert(Seq::<Seq<char>>::empty().push(strings.last()) =~= strings);
        } else {
            let before = backticked_list(front);
            let comma = before + seq![','];
            assert(comma.drop_last() =~= before);
            assert(comma.last() == ',');
            assert(scanned(comma) == next_place(Place::Post, front, ','));
            let space = comma + seq![' '];
            assert(space.drop_last() =~= comma);
            assert(space.last() == ' ');
            assert(scanned(space) == Ok::<(Place, Seq<Seq<char>>), RuleError>(
                (Place::Pre, front),
            ));
            lemma_scan_string(space, front, strings.last());
            assert(space + backticked(strings.last()) =~= backticked_list(strings));
            assert(front.push(strings.last()) =~= strings);
        }
    }
}

/// A rule on hosts that lists strings in backticks names the hosts that the strings stand for.
pub proof fn law_host_lists_are_read(strings: Seq<Seq<char>>)
    requires
        strings.len() > 0,
        forall|i: int| 0 <= i < strings.len() ==> free_of(#[trigger] strings[i], '`'),
    ensures
        single_hosts(
            seq!['H', 'o', 's', 't', '('] + backticked_list(strings) + seq![')'],
        ) == Ok::<Seq<Seq<Seq<u8>>>, RuleError>(names_of(strings)),
{
    let start = seq!['H', 'o', 's', 't', '('];
    let list = backticked_list(strings);
    let rule = start + list + seq![')'];
    lemma_scan_list(strings);
    if list.len() == 0 {
        assert(scanned(list) == Ok::<(Place, Seq<Seq<char>>), RuleError>(
            (Place::Pre, Seq::empty()),
        ));
    }
    assert(rule.take(5) =~= start);
    assert(rule.subrange(5, rule.len() - 1) =~= list);
}

/// A string of a rule as it is written: with blanks around it, and in backticks or in quotes.
pub struct Written {
    pub before: Seq<char>,
    pub quoted: bool,
    pub string: Seq<char>,
    pub after: Seq<char>,
}

/// Whether a text is made of spaces and tabs.
pub open spec fn is_blank(s: Seq<char>) -> bool {
    forall|i: int| 0 <= i < s.len() ==> #[trigger] s[i] == ' ' || s[i] == '\t'
}

/// A text within quotes: quotes in it have a backslash before them.
pub open spec fn escaped(s: Seq<char>) -> Seq<char>
    decreases s.len(),
{
    if s.len() == 0 {
        Seq::empty()
    } else if s.last() == '"' {
        escaped(s.drop_last()) + seq!['\\', '"']
    } else {
        escaped(s.drop_last()).push(s.last())
    }
}

/// A string as it is written.
pub open spec fn written(item: Written) -> Seq<char> {
    item.before + (if item.quoted {
        seq!['"'] + escaped(item.string) + seq!['"']
    } else {
        seq!['`'] + item.string + seq!['`']
    }) + item.after
}

/// Strings as they are written, with commas between them.
pub open spec fn written_list(items: Seq<Written>) -> Seq<char>
    decreases items.len(),
{
    if items.len() == 0 {
        Seq::empty()
    } else if items.len() == 1 {
        written(items[0])
    } else {
        written_list(items.drop_last()) + seq![','] + written(items.last())
    }
}

/// Whether a string can be written so: there are only blanks around it, and it does not hold what
/// would end it, or a backslash within quotes.
pub open spec fn writable(item: Written) -> bool {
    &&& is_blank(item.before)
    &&& is_blank(item.after)
    &&& if item.quoted {
        free_of(item.string, '\\')
    } else {
        free_of(item.string, '`')
    }
}

/// Blanks before or after a string are passed over.
proof fn lemma_scan_blank(start: Seq<char>, place: Place, strings: Seq<Seq<char>>, blank: Seq<char>)
    requires
        scanned(start) == Ok::<(Place, Seq<Seq<char>>), RuleError>((place, strings)),
        place is Pre || place is Post,
        is_blank(blank),
    ensures
        scanned(start + blank) == Ok::<(Place, Seq<Seq<char>>), RuleError>((place, strings)),
    decreases blank.len(),
{
    if blank.len() == 0 {
        assert(start + blank =~= start);
    } else {
        let front = blank.drop_last();
        assert(is_blank(front)) by {
            assert forall|i: int| 0 <= i < front.len() implies #[trigger] front[i] == ' ' || front[i]
                == '\t' by {
                assert(front[i] == blank[i]);
            }
        }
        lemma_scan_blank(start, place, strings, front);
        assert((start + blank).drop_last() =~= start + front);
        assert((start + blank).last() == blank[blank.len() - 1]);
    }
}

/// A string within quotes is read as far as it goes.
proof fn lemma_scan_quoted(start: Seq<char>, strings: Seq<Seq<char>>, s: Seq<char>)
    requires
        scanned(start) == Ok::<(Place, Seq<Seq<char>>), RuleError>((Place::Pre, strings)),
        free_of(s, '\\'),
    ensures
        scanned(start + seq!['"'] + escaped(s)) == Ok::<(Place, Seq<Seq<char>>), RuleError>(
            (Place::Quote(s), strings),
        ),
    decreases s.len(),
{
    let text = start + seq!['"'] + escaped(s);
    if s.len() == 0 {
        assert(text.drop_last() =~= start);
        assert(text.last() == '"');
        assert(s =~= Seq::empty());
    } else {
        let front = s.drop_last();
        assert(free_of(front, '\\')) by {
            assert forall|i: int| 0 <= i < front.len() implies front[i] != '\\' by {
                assert(front[i] == s[i]);
            }
        }
        lemma_scan_quoted(start, strings, front);
        let before = start + seq!['"'] + escaped(front);
        assert(front.push(s.last()) =~= s);
        assert(s[s.len() - 1] == s.last());
        if s.last() == '"' {
            let middle = before.push('\\');
            assert(middle.drop_last() =~= before);
            assert(scanned(middle) == Ok::<(Place, Seq<Seq<char>>), RuleError>(
                (Place::EscapedQuote(front), strings),
            ));
            assert(text =~= middle.push('"'));
            assert(text.drop_last() =~= middle);
        } else {
            assert(text =~= before.push(s.last()));
            assert(text.drop_last() =~= before);
        }
    }
}

/// A written string is read.
proof fn lemma_scan_written(start: Seq<char>, strings: Seq<Seq<char>>, item: Written)
    requires
        scanned(start) == Ok::<(Place, Seq<Seq<char>>), RuleError>((Place::Pre, strings)),
        writable(item),
    ensures
        scanned(start + written(item)) == Ok::<(Place, Seq<Seq<char>>), RuleError>(
            (Place::Post, strings.push(item.string)),
        ),
{
    let begin = start + item.before;
    lemma_scan_blank(start, Place::Pre, strings, item.before);
    if item.quoted {
        let open = begin + seq!['"'] + escaped(item.string);
        let closed = open.push('"');
        lemma_scan_quoted(begin, strings, item.string);
        assert(closed.drop_last() =~= open);
        lemma_scan_blank(closed, Place::Post, strings.push(item.string), item.after);
        assert(start + written(item) =~= closed + item.after);
    } else {
        lemma_scan_string(begin, strings, item.string);
        let closed = begin + backticked(item.string);
        lemma_scan_blank(closed, Place::Post, strings.push(item.string), item.after);
        assert(start + written(item) =~= closed + item.after);
    }
}

/// The strings of written ones.
pub open spec fn strings_of(items: Seq<Written>) -> Seq<Seq<char>> {
    Seq::new(items.len(), |i: int| items[i].string)
}

/// Written strings with commas between them are read.
proof fn lemma_scan_written_list(items: Seq<Written>)
    requires
        forall|i: int| 0 <= i < items.len() ==> writable(#[trigger] items[i]),
        items.len() > 0,
    ensures
        scanned(written_list(items)) == Ok::<(Place, Seq<Seq<char>>), RuleError>(
            (Place::Post, strings_of(items)),
        ),
    decreases items.len(),
{
    let none = Seq::<char>::empty();
    let last = items[items.len() - 1];
    if items.len() == 1 {
        lemma_scan_written(none, Seq::empty(), last);
        assert(none + written(last) =~= written_list(items));
        assert(Seq::<Seq<char>>::empty().push(last.string) =~= strings_of(items));
    } else {
        let front = items.drop_last();
        assert forall|i: int| 0 <= i < front.len() implies writable(#[trigger] front[i]) by {
            assert(front[i] == items[i]);
        }
        lemma_scan_written_list(front);
        let comma = written_list(front) + seq![','];
        assert(comma.drop_last() =~= written_list(front));
        assert(comma.last() == ',');
        lemma_scan_written(comma, strings_of(front), last);
        assert(strings_of(front).push(last.string) =~= strings_of(items));
    }
}

/// The names among strings are those that some string stands for.
proof fn lemma_names_of(strings: Seq<Seq<char>>, name: Seq<Seq<u8>>)
    ensures
        names_of(strings).contains(name) <==> exists|i: int|
            0 <= i < strings.len() && name_from_text(#[trigger] strings[i]) == Some(name),
    decreases strings.len(),
{
    let all = names_of(strings);
    if strings.len() > 0 {
        let front = strings.drop_last();
        let rest = names_of(front);
        lemma_names_of(front, name);
        assert(strings[strings.len() - 1] == strings.last());
        if exists|i: int|
            0 <= i < strings.len() && name_from_text(#[trigger] strings[i]) == Some(name) {
            let i = choose|i: int|
                0 <= i < strings.len() && name_from_text(#[trigger] strings[i]) == Some(name);
            if i < front.len() {
                assert(front[i] == strings[i]);
            }
        }
        if exists|i: int| 0 <= i < front.len() && name_from_text(#[trigger] front[i]) == Some(name) {
            let i = choose|i: int|
                0 <= i < front.len() && name_from_text(#[trigger] front[i]) == Some(name);
            assert(strings[i] == front[i]);
        }
        if all.contains(name) {
            let i = choose|i: int| 0 <= i < all.len() && all[i] == name;
            if i < rest.len() {
                assert(rest[i] == name);
            }
        }
        if rest.contains(name) {
            let i = choose|i: int| 0 <= i < rest.len() && rest[i] == name;
            assert(all[i] == name);
        }
        if let Some(given) = name_from_text(strings.last()) {
            assert(all[rest.len() as int] == given);
        }
    } else {
        assert(!all.contains(name));
    }
}

/// A rule on hosts that lists strings, in backticks or in quotes, with blanks around them and commas
/// between them, and maybe one at its end, names exactly the hosts that the strings stand for.
pub proof fn law_written_hosts_are_read(items: Seq<Written>, comma: bool, name: Seq<Seq<u8>>)
    requires
        items.len() > 0,
        forall|i: int| 0 <= i < items.len() ==> writable(#[trigger] items[i]),
    ensures
        ({
            let list = if comma {
                written_list(items).push(',')
            } else {
                written_list(items)
            };
            let hosts = single_hosts(seq!['H', 'o', 's', 't', '('] + list + seq![')']);
            &&& hosts is Ok
            &&& hosts->Ok_0.contains(name) <==> exists|i: int|
                0 <= i < items.len() && name_from_text((#[trigger] items[i]).string) == Some(name)
        }),
{
    let start = seq!['H', 'o', 's', 't', '('];
    let strings = strings_of(items);
    let list = if comma {
        written_list(items).push(',')
    } else {
        written_list(items)
    };
    let rule = start + list + seq![')'];
    lemma_scan_written_list(items);
    if comma {
        assert(list.drop_last() =~= written_list(items));
    }
    assert(listed_strings(list) == Ok::<Seq<Seq<char>>, RuleError>(strings));
    assert(rule.take(5) =~= start);
    assert(rule.subrange(5, rule.len() - 1) =~= list);
    lemma_names_of(strings, name);
    if exists|i: int|
        0 <= i < items.len() && name_from_text((#[trigger] items[i]).string) == Some(name) {
        let i = choose|i: int|
            0 <= i < items.len() && name_from_text((#[trigger] items[i]).string) == Some(name);
        assert(name_from_text(strings[i]) == Some(name));
    }
    if exists|i: int|
        0 <= i < strings.len() && name_from_text(#[trigger] strings[i]) == Some(name) {
        let i = choose|i: int|
            0 <= i < strings.len() && name_from_text(#[trigger] strings[i]) == Some(name);
        assert(name_from_text(items[i].string) == Some(name));
    }
}

/// A rule that is none on hosts names none, and does no harm.
pub proof fn law_other_rules_name_no_hosts(rule: Seq<char>)
    requires
        rule.len() < 6 || rule.take(5) != seq!['H', 'o', 's', 't', '('] || rule.last() != ')',
    ensures
        single_hosts(rule) == Ok::<Seq<Seq<Seq<u8>>>, RuleError>(Seq::empty()),
{
}

/// Rules with two bars between them.
pub open spec fn with_bars(rules: Seq<Seq<char>>) -> Seq<char>
    decreases rules.len(),
{
    if rules.len() == 0 {
        Seq::empty()
    } else if rules.len() == 1 {
        rules[0]
    } else {
        rules[0] + seq!['|', '|'] + with_bars(rules.drop_first())
    }
}

/// Rules that are combined by two bars, and hold none, are taken apart again.
pub proof fn law_alternatives_are_taken_apart(rules: Seq<Seq<char>>)
    requires
        rules.len() > 0,
        forall|i: int| 0 <= i < rules.len() ==> free_of(#[trigger] rules[i], '|'),
    ensures
        alternatives(with_bars(rules)) == rules,
    decreases rules.len(),
{
    let text = with_bars(rules);
    let first = rules[0];
    assert(free_of(first, '|'));
    if rules.len() == 1 {
        assert forall|i: int| 0 <= i < text.len() && i + 1 < text.len() implies !(#[trigger] text[i]
            == '|' && text[i + 1] == '|') by {
            assert(text[i] != '|');
        }
        lemma_bars_is(text, text.len() as int);
        assert(alternatives(text) =~= rules);
    } else {
        let rest = rules.drop_first();
        let n = first.len() as int;
        assert forall|i: int| 0 <= i < rest.len() implies free_of(#[trigger] rest[i], '|') by {
            assert(rest[i] == rules[i + 1]);
        }
        law_alternatives_are_taken_apart(rest);
        assert forall|i: int| 0 <= i < n && i + 1 < text.len() implies !(#[trigger] text[i] == '|'
            && text[i + 1] == '|') by {
            assert(text[i] == first[i]);
            assert(first[i] != '|');
        }
        assert(text[n] == '|' && text[n + 1] == '|');
        lemma_bars_is(text, n);
        assert(text.take(n) =~= first);
        assert(text.skip(n + 2) =~= with_bars(rest));
        assert(seq![first] + rest =~= rules);
    }
}

/// The hosts that rules name are those of each of them, and there are some exactly where each can be
/// read.
pub proof fn law_hosts_of_all_rules(rules: Seq<Seq<char>>, name: Seq<Seq<u8>>)
    ensures
        all_hosts(rules) is Ok <==> forall|i: int|
            0 <= i < rules.len() ==> single_hosts(trimmed(#[trigger] rules[i])) is Ok,
        all_hosts(rules) matches Ok(hosts) ==> (hosts.contains(name) <==> exists|i: int|
            0 <= i < rules.len() && single_hosts(trimmed(#[trigger] rules[i]))->Ok_0.contains(name)),
    decreases rules.len(),
{
    if rules.len() > 0 {
        let front = rules.drop_last();
        law_hosts_of_all_rules(front, name);
        assert(rules[rules.len() - 1] == rules.last());
        if all_hosts(rules) is Ok {
            assert forall|i: int| 0 <= i < rules.len() implies single_hosts(
                trimmed(#[trigger] rules[i]),
            ) is Ok by {
                if i < front.len() {
                    assert(front[i] == rules[i]);
                }
            }
            let rest = all_hosts(front)->Ok_0;
            let more = single_hosts(trimmed(rules.last()))->Ok_0;
            let all = rest + more;
            if all.contains(name) {
                let k = choose|k: int| 0 <= k < all.len() && all[k] == name;
                if k < rest.len() {
                    assert(rest[k] == name);
                    let i = choose|i: int|
                        0 <= i < front.len() && single_hosts(
                            trimmed(#[trigger] front[i]),
                        )->Ok_0.contains(name);
                    assert(rules[i] == front[i]);
                } else {
                    assert(more[k - rest.len()] == name);
                }
            }
            if exists|i: int|
                0 <= i < rules.len() && single_hosts(
                    trimmed(#[trigger] rules[i]),
                )->Ok_0.contains(name) {
                let i = choose|i: int|
                    0 <= i < rules.len() && single_hosts(
                        trimmed(#[trigger] rules[i]),
                    )->Ok_0.contains(name);
                if i < front.len() {
                    assert(front[i] == rules[i]);
                    let k = choose|k: int| 0 <= k < rest.len() && rest[k] == name;
                    assert(all[k] == name);
                } else {
                    let k = choose|k: int| 0 <= k < more.len() && more[k] == name;
                    assert(all[k + rest.len()] == name);
                }
            }
        }
        if forall|i: int|
            0 <= i < rules.len() ==> single_hosts(trimmed(#[trigger] rules[i])) is Ok {
            assert forall|i: int| 0 <= i < front.len() implies single_hosts(
                trimmed(#[trigger] front[i]),
            ) is Ok by {
                assert(front[i] == rules[i]);
            }
        }
    } else {
        assert(!(all_hosts(rules)->Ok_0.contains(name)));
    }
}

/// A rule on hosts as it is written, with padding around it.
pub struct WrittenRule {
    pub before: Seq<char>,
    pub items: Seq<Written>,
    pub after: Seq<char>,
}

/// A rule on hosts as it is written.
pub open spec fn written_rule(rule: WrittenRule) -> Seq<char> {
    rule.before + (seq!['H', 'o', 's', 't', '('] + written_list(rule.items) + seq![')']) + rule.after
}

/// Rules on hosts, combined by two bars with padding around them, name exactly the hosts that the
/// strings of all of them stand for.
pub proof fn law_combined_rules_are_read(rules: Seq<WrittenRule>, name: Seq<Seq<u8>>)
    requires
        rules.len() > 0,
        forall|i: int|
            0 <= i < rules.len() ==> is_padding((#[trigger] rules[i]).before) && is_padding(
                rules[i].after,
            ) && rules[i].items.len() > 0 && free_of(written_rule(rules[i]), '|') && forall|k: int|
                0 <= k < rules[i].items.len() ==> writable(#[trigger] rules[i].items[k]),
    ensures
        ({
            let hosts = rule_hosts(
                with_bars(Seq::new(rules.len(), |i: int| written_rule(rules[i]))),
            );
            &&& hosts is Ok
            &&& hosts->Ok_0.contains(name) <==> exists|i: int, k: int|
                0 <= i < rules.len() && 0 <= k < rules[i].items.len() && name_from_text(
                    (#[trigger] rules[i].items[k]).string,
                ) == Some(name)
        }),
{
    let parts = Seq::new(rules.len(), |i: int| written_rule(rules[i]));
    assert forall|i: int| 0 <= i < parts.len() implies free_of(#[trigger] parts[i], '|') by {
        assert(free_of(written_rule(rules[i]), '|'));
    }
    law_alternatives_are_taken_apart(parts);
    law_hosts_of_all_rules(parts, name);
    assert forall|i: int| 0 <= i < parts.len() implies ({
        let hosts = single_hosts(trimmed(#[trigger] parts[i]));
        &&& hosts is Ok
        &&& hosts->Ok_0.contains(name) <==> exists|k: int|
            0 <= k < rules[i].items.len() && name_from_text(
                (#[trigger] rules[i].items[k]).string,
            ) == Some(name)
    }) by {
        let rule = rules[i];
        let text = seq!['H', 'o', 's', 't', '('] + written_list(rule.items) + seq![')'];
        assert(text[0] == 'H' && text.last() == ')');
        law_padding_is_trimmed(rule.before, text, rule.after);
        law_written_hosts_are_read(rule.items, false, name);
    }
    let hosts = rule_hosts(with_bars(parts));
    if hosts->Ok_0.contains(name) {
        let i = choose|i: int|
            0 <= i < parts.len() && single_hosts(trimmed(#[trigger] parts[i]))->Ok_0.contains(name);
        let k = choose|k: int|
            0 <= k < rules[i].items.len() && name_from_text(
                (#[trigger] rules[i].items[k]).string,
            ) == Some(name);
        assert(name_from_text(rules[i].items[k].string) == Some(name));
    }
    if exists|i: int, k: int|
        0 <= i < rules.len() && 0 <= k < rules[i].items.len() && name_from_text(
            (#[trigger] rules[i].items[k]).string,
        ) == Some(name) {
        let (i, k) = choose|i: int, k: int|
            0 <= i < rules.len() && 0 <= k < rules[i].items.len() && name_from_text(
                (#[trigger] rules[i].items[k]).string,
            ) == Some(name);
        assert(single_hosts(trimmed(parts[i]))->Ok_0.contains(name));
    }
}

/// Whether some router has a rule that can be read and names a host.
pub open spec fn routed_host(rules: Seq<Seq<char>>, host: Seq<Seq<u8>>) -> bool {
    exists|i: int|
        0 <= i < rules.len() && rule_hosts(#[trigger] rules[i]) is Ok && rule_hosts(
            rules[i],
        )->Ok_0.contains(host)
}

/// The hosts that routers name are those of each whose rule can be read.
proof fn lemma_router_hosts(rules: Seq<Seq<char>>, host: Seq<Seq<u8>>)
    ensures
        router_hosts(rules).contains(host) <==> routed_host(rules, host),
    decreases rules.len(),
{
    let all = router_hosts(rules);
    if rules.len() > 0 {
        let front = rules.drop_last();
        let rest = router_hosts(front);
        lemma_router_hosts(front, host);
        assert(rules[rules.len() - 1] == rules.last());
        if routed_host(rules, host) {
            let i = choose|i: int|
                0 <= i < rules.len() && rule_hosts(#[trigger] rules[i]) is Ok && rule_hosts(
                    rules[i],
                )->Ok_0.contains(host);
            if i < front.len() {
                assert(front[i] == rules[i]);
                let k = choose|k: int| 0 <= k < rest.len() && rest[k] == host;
                assert(all[k] == host);
            } else {
                let more = rule_hosts(rules[i])->Ok_0;
                let k = choose|k: int| 0 <= k < more.len() && more[k] == host;
                assert(all[k + rest.len()] == host);
            }
        }
        if all.contains(host) {
            let k = choose|k: int| 0 <= k < all.len() && all[k] == host;
            if k < rest.len() {
                assert(rest[k] == host);
                let i = choose|i: int|
                    0 <= i < front.len() && rule_hosts(#[trigger] front[i]) is Ok && rule_hosts(
                        front[i],
                    )->Ok_0.contains(host);
                assert(rules[i] == front[i]);
            } else {
                let more = rule_hosts(rules.last())->Ok_0;
                assert(more[k - rest.len()] == host);
            }
        }
    } else {
        assert(!all.contains(host));
    }
}

/// Whether a record leads from a host to data, where that does not make the host an alias of itself.
pub open spec fn leads_host(record: RecordView, host: Seq<Seq<u8>>, rdata: RDataView) -> bool {
    &&& fold(record.name) == fold(host)
    &&& record.ttl is None
    &&& fold_data(record.rdata) == fold_data(rdata)
    &&& !(rdata matches RDataView::Cname(target) && fold(target) == fold(host))
}

/// The records for hosts are those that lead from each of them.
proof fn lemma_host_records(hosts: Seq<Seq<Seq<u8>>>, rdata: RDataView, record: RecordView)
    ensures
        holds(host_records(hosts, rdata), record) <==> exists|i: int|
            0 <= i < hosts.len() && leads_host(record, #[trigger] hosts[i], rdata),
    decreases hosts.len(),
{
    let all = host_records(hosts, rdata);
    if hosts.len() > 0 {
        let front = hosts.drop_last();
        let rest = host_records(front, rdata);
        let last = RecordView { name: hosts.last(), ttl: None, rdata };
        lemma_host_records(front, rdata, record);
        assert(hosts[hosts.len() - 1] == hosts.last());
        assert(fold_record(last) == fold_record(record) <==> fold(hosts.last()) == fold(record.name)
            && record.ttl is None && fold_data(rdata) == fold_data(record.rdata)) by {
            if fold_record(last) == fold_record(record) {
                assert(fold_record(last).name == fold_record(record).name);
                assert(fold_record(last).ttl == fold_record(record).ttl);
                assert(fold_record(last).rdata == fold_record(record).rdata);
            }
        }
        if exists|i: int| 0 <= i < hosts.len() && leads_host(record, #[trigger] hosts[i], rdata) {
            let i = choose|i: int|
                0 <= i < hosts.len() && leads_host(record, #[trigger] hosts[i], rdata);
            if i < front.len() {
                assert(front[i] == hosts[i]);
            }
        }
        if exists|i: int| 0 <= i < front.len() && leads_host(record, #[trigger] front[i], rdata) {
            let i = choose|i: int|
                0 <= i < front.len() && leads_host(record, #[trigger] front[i], rdata);
            assert(hosts[i] == front[i]);
        }
        if holds(all, record) {
            let i = choose|i: int|
                0 <= i < all.len() && fold_record(#[trigger] all[i]) == fold_record(record);
            if i < rest.len() {
                assert(rest[i] == all[i]);
            }
        }
        if holds(rest, record) {
            let i = choose|i: int|
                0 <= i < rest.len() && fold_record(#[trigger] rest[i]) == fold_record(record);
            assert(all[i] == rest[i]);
        }
        if !own_alias(hosts.last(), rdata) {
            assert(all[rest.len() as int] == last);
        }
    }
}

/// What the records of a source lead to: the address that is configured, else the host of the URL,
/// by its address where it is one, and by an alias of its name otherwise.
pub open spec fn leads_to(config: TraefikConfig, rdata: RDataView) -> bool {
    match config.address {
        Some(address) => rdata == address@,
        None => match url_host(config.url@) {
            Some(host) => match crate::ip::ip_from_text(host) {
                Some(IpAddr::V4(ip)) => rdata == RDataView::A(ip),
                Some(IpAddr::V6(ip)) => rdata == RDataView::Aaaa(ip),
                None => name_from_text(host) matches Some(name) && rdata == RDataView::Cname(name),
            },
            None => false,
        },
    }
}

/// A record is made for routers exactly when it leads from a host that some router names, by a rule
/// that can be read, to what the source leads to, and does not make the host an alias of itself.
pub proof fn law_every_router_has_its_records(
    config: TraefikConfig,
    routers: Seq<ApiRouter>,
    record: RecordView,
)
    ensures
        holds(routed(config, routers).records, record) <==> record_of_router(
            config,
            routers,
            record,
        ),
{
    let rules = rules_of(routers);
    let hosts = router_hosts(rules);
    match source_data(address_view(config.address), url_host(config.url@)) {
        Some(rdata) => {
            assert(leads_to(config, rdata));
            law_append_is_union(no_records(), host_records(hosts, rdata), record);
            lemma_host_records(hosts, rdata, record);
            if holds(host_records(hosts, rdata), record) {
                let i = choose|i: int|
                    0 <= i < hosts.len() && leads_host(record, #[trigger] hosts[i], rdata);
                assert(hosts.contains(hosts[i]));
                lemma_router_hosts(rules, hosts[i]);
                let k = choose|k: int|
                    0 <= k < rules.len() && rule_hosts(#[trigger] rules[k]) is Ok && rule_hosts(
                        rules[k],
                    )->Ok_0.contains(hosts[i]);
                assert(rules[k] == routers[k].rule@);
                assert(names_host(routers[k], hosts[i]) && leads_host(record, hosts[i], rdata));
            }
            if record_of_router(config, routers, record) {
                let (k, host, data) = choose|k: int, host: Seq<Seq<u8>>, data: RDataView|
                    0 <= k < routers.len() && #[trigger] names_host(routers[k], host) && leads_to(
                        config,
                        data,
                    ) && #[trigger] leads_host(record, host, data);
                assert(data == rdata);
                assert(rules[k] == routers[k].rule@);
                assert(routed_host(rules, host));
                lemma_router_hosts(rules, host);
                let i = choose|i: int| 0 <= i < hosts.len() && hosts[i] == host;
                assert(leads_host(record, hosts[i], rdata));
            }
        },
        None => {
            assert(forall|data: RDataView| !leads_to(config, data));
        },
    }
}

/// Whether the rule of a router can be read and names a host.
pub open spec fn names_host(router: ApiRouter, host: Seq<Seq<u8>>) -> bool {
    rule_hosts(router.rule@) is Ok && rule_hosts(router.rule@)->Ok_0.contains(host)
}

/// Whether a record leads from a host that some router names to what the source leads to.
pub open spec fn record_of_router(
    config: TraefikConfig,
    routers: Seq<ApiRouter>,
    record: RecordView,
) -> bool {
    exists|k: int, host: Seq<Seq<u8>>, rdata: RDataView|
        0 <= k < routers.len() && #[trigger] names_host(routers[k], host) && leads_to(config, rdata)
            && #[trigger] leads_host(record, host, rdata)
}

/// No record for a router makes a host an alias for itself.
pub proof fn law_no_host_is_its_own_alias(hosts: Seq<Seq<Seq<u8>>>, rdata: RDataView)
    ensures
        forall|i: int|
            0 <= i < host_records(hosts, rdata).len() ==> !own_alias(
                (#[trigger] host_records(hosts, rdata)[i]).name,
                rdata,
            ),
    decreases hosts.len(),
{
    if hosts.len() > 0 {
        let rest = host_records(hosts.drop_last(), rdata);
        let all = host_records(hosts, rdata);
        law_no_host_is_its_own_alias(hosts.drop_last(), rdata);
        assert forall|i: int| 0 <= i < all.len() implies !own_alias(
            (#[trigger] all[i]).name,
            rdata,
        ) by {
            if i < rest.len() {
                assert(all[i] == rest[i]);
            }
        }
    }
}

/// The data that the records of a source lead to: the address that is configured, or the host of
/// the URL.
pub open spec fn source_data(address: Option<RDataView>, host: Option<Seq<char>>) -> Option<
    RDataView,
> {
    match address {
        Some(address) => Some(address),
        None => match host {
            Some(host) => match crate::ip::ip_from_text(host) {
                Some(ip) => Some(ip_data(ip)),
                None => match name_from_text(host) {
                    Some(name) => Some(RDataView::Cname(name)),
                    None => None,
                },
            },
            None => None,
        },
    }
}

/// The hosts that routers name. A router whose rule cannot be read names none.
pub open spec fn router_hosts(rules: Seq<Seq<char>>) -> Seq<Seq<Seq<u8>>>
    decreases rules.len(),
{
    if rules.len() == 0 {
        Seq::empty()
    } else {
        let rest = router_hosts(rules.drop_last());
        match rule_hosts(rules.last()) {
            Ok(hosts) => rest + hosts,
            Err(_) => rest,
        }
    }
}

/// The records for hosts. No host is made an alias for itself.
pub open spec fn host_records(hosts: Seq<Seq<Seq<u8>>>, rdata: RDataView) -> Seq<RecordView>
    decreases hosts.len(),
{
    if hosts.len() == 0 {
        Seq::empty()
    } else {
        let rest = host_records(hosts.drop_last(), rdata);
        if own_alias(hosts.last(), rdata) {
            rest
        } else {
            rest.push(RecordView { name: hosts.last(), ttl: None, rdata })
        }
    }
}

/// The rules of routers.
pub open spec fn rules_of(routers: Seq<ApiRouter>) -> Seq<Seq<char>> {
    Seq::new(routers.len(), |i: int| routers[i].rule@)
}

/// The address that there may be.
pub open spec fn address_view(address: Option<RData>) -> Option<RDataView> {
    match address {
        Some(address) => Some(address@),
        None => None,
    }
}

/// The data that the records of a source lead to, where the host of its URL is known.
pub fn target_data(address: &Option<RData>, host: Option<String>) -> (r: Option<RData>)
    ensures
        match r {
            Some(rdata) => source_data(
                address_view(*address),
                match host {
                    Some(host) => Some(host@),
                    None => None,
                },
            ) == Some(rdata@),
            None => source_data(
                address_view(*address),
                match host {
                    Some(host) => Some(host@),
                    None => None,
                },
            ) is None,
        },
{
    if let Some(address) = address {
        return Some(address.clone());
    }
    match host {
        Some(host) => match IpAddr::from_text(host.as_str()) {
            Some(ip) => Some(RData::from_ip(ip)),
            None => match Fqdn::from_text(host.as_str()) {
                Ok(name) => Some(RData::Cname(name)),
                Err(_) => None,
            },
        },
        None => None,
    }
}

/// The hosts that routers name.
fn find_hosts(routers: &Vec<ApiRouter>) -> (r: Vec<Fqdn>)
    ensures
        host_views(r@) == router_hosts(rules_of(routers@)),
{
    let mut names: Vec<Fqdn> = Vec::new();
    let ghost all = rules_of(routers@);
    let mut i: usize = 0;
    assert(all.take(0) =~= Seq::empty());
    assert(host_views(names@) =~= Seq::empty());
    while i < routers.len()
        invariant
            i <= routers.len(),
            all == rules_of(routers@),
            host_views(names@) == router_hosts(all.take(i as int)),
        decreases routers.len() - i,
    {
        assert(all.take(i + 1).drop_last() =~= all.take(i as int));
        assert(all.take(i + 1).last() == routers@[i as int].rule@);
        if let Ok(hosts) = parse_hosts(routers[i].rule.as_str()) {
            let mut hosts = hosts;
            let ghost before = host_views(names@);
            let ghost added = host_views(hosts@);
            names.append(&mut hosts);
            assert(host_views(names@) =~= before + added);
        }
        i += 1;
    }
    assert(all.take(i as int) =~= all);
    names
}

/// The records for the routers of a server, where the data that they lead to is known.
pub fn router_records(rdata: &RData, routers: &Vec<ApiRouter>) -> (r: RecordSet)
    ensures
        r@ == with_records(
            no_records(),
            host_records(router_hosts(rules_of(routers@)), rdata@),
        ),
{
    let names = find_hosts(routers);
    let mut records: Vec<Record> = Vec::new();
    let ghost all = host_views(names@);
    let mut i: usize = 0;
    assert(all.take(0) =~= Seq::empty());
    assert(record_views(records@) =~= Seq::empty());
    while i < names.len()
        invariant
            i <= names.len(),
            all == host_views(names@),
            record_views(records@) == host_records(all.take(i as int), rdata@),
        decreases names.len() - i,
    {
        assert(all.take(i + 1).drop_last() =~= all.take(i as int));
        assert(all.take(i + 1).last() == names@[i as int]@);
        let own = match rdata {
            RData::Cname(name) => names[i].same(name),
            _ => false,
        };
        if !own {
            let ghost before = record_views(records@);
            let record = Record::new(names[i].clone(), rdata.clone());
            records.push(record);
            assert(record_views(records@) =~= before.push(record@));
        }
        i += 1;
    }
    assert(all.take(i as int) =~= all);
    RecordSet::from_records(&records)
}

/// The records for the routers of a server.
pub open spec fn routed(config: TraefikConfig, routers: Seq<ApiRouter>) -> RecordSetView {
    match source_data(address_view(config.address), url_host(config.url@)) {
        Some(rdata) => with_records(
            no_records(),
            host_records(router_hosts(rules_of(routers)), rdata),
        ),
        None => no_records(),
    }
}

/// The records for the routers of a server.
pub fn generate_records(traefik_config: &TraefikConfig, routers: &Vec<ApiRouter>) -> (r: RecordSet)
    ensures
        r@ == routed(*traefik_config, routers@),
        forall|record: RecordView|
            #[trigger] holds(r@.records, record) <==> record_of_router(
                *traefik_config,
                routers@,
                record,
            ),
{
    proof {
        let made = routed(*traefik_config, routers@).records;
        assert forall|record: RecordView|
            #[trigger] holds(made, record) <==> record_of_router(
                *traefik_config,
                routers@,
                record,
            ) by {
            law_every_router_has_its_records(*traefik_config, routers@, record);
        }
    }
    let host = host_of_url(traefik_config.url.as_str());
    match target_data(&traefik_config.address, host) {
        Some(rdata) => router_records(&rdata, routers),
        None => RecordSet::new(),
    }
}

/// The URL of a method of the server. A URL that has none makes the source give up.
pub fn api_url(base_url: &str, method: &str) -> (r: Result<String, LoopResult>)
    ensures
        match url_joined(base_url@, method@) {
            Some(url) => r is Ok && r->Ok_0@ == url,
            None => r is Err && r->Err_0 == LoopResult::Quit,
        },
{
    match join_url(base_url, method) {
        Some(url) => Ok(url),
        None => Err(LoopResult::Quit),
    }
}

impl TraefikConfig {
    /// How long to wait between two looks at the rules, in milliseconds.
    pub open spec fn millis(self) -> u64 {
        match self.interval_ms {
            Some(millis) => millis,
            None => POLL_INTERVAL_MS,
        }
    }

    /// How long to wait between two looks at the rules, in milliseconds.
    pub fn interval(&self) -> (r: u64)
        ensures
            r == self.millis(),
    {
        match self.interval_ms {
            Some(millis) => millis,
            None => POLL_INTERVAL_MS,
        }
    }
}

/// What a traefik server said, or why it said nothing.
#[derive(Debug)]
pub enum TraefikEvent {
    /// It was asked for its version.
    Version(Result<(), LoopResult>),
    /// It was asked for its routers.
    Routers(Result<Vec<ApiRouter>, LoopResult>),
}

/// What a traefik source does next.
#[derive(Debug)]
pub enum TraefikAction {
    /// It asks for the routers.
    AskRouters,
    /// It serves records, and asks for the routers again after so many milliseconds.
    Publish(RecordSet, u64),
    /// It serves nothing, and asks for the version again after so many milliseconds.
    Retry(u64),
    /// It gives up.
    Stop,
}

/// Decides what a traefik source does next. It asks for the version once and for the routers again
/// and again. When something fails it begins anew, after a time that grows to the one given; when
/// there is no hope it gives up.
pub fn traefik_loop(
    config: &TraefikConfig,
    backoff: &mut Backoff,
    event: TraefikEvent,
    scaled: u64,
) -> (r: TraefikAction)
    ensures
        match event {
            TraefikEvent::Version(Ok(_)) => r is AskRouters && *final(backoff) == *old(backoff),
            TraefikEvent::Routers(Ok(routers)) => *final(backoff) == *old(backoff)
                && (r matches TraefikAction::Publish(records, wait) && records@ == routed(
                *config,
                routers@,
            ) && wait == config.millis()),
            TraefikEvent::Version(Err(result)) | TraefikEvent::Routers(Err(result)) => if result
                == LoopResult::Quit {
                r is Stop && *final(backoff) == *old(backoff)
            } else {
                r == TraefikAction::Retry(old(backoff).next) && *final(backoff) == handed_out(
                    *old(backoff),
                    scaled,
                )
            },
        },
{
    match event {
        TraefikEvent::Version(Ok(_)) => TraefikAction::AskRouters,
        TraefikEvent::Routers(Ok(routers)) => TraefikAction::Publish(
            generate_records(config, &routers),
            config.interval(),
        ),
        TraefikEvent::Version(Err(result)) | TraefikEvent::Routers(Err(result)) => match result {
            LoopResult::Quit => TraefikAction::Stop,
            _ => TraefikAction::Retry(backoff.next(scaled)),
        },
    }
}

} // verus!
