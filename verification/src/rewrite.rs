//! Topic rewriting rules: what a rule applies to, and the destination
//! topic template it rewrites to, with its placeholders `$1`, `$2`, ...
//! (captures of the rule's regex), `${clientid}` and `${username}`.
use vstd::prelude::*;
use crate::text::{owned, str_chars, string_from_chars};
use crate::topic::{levels_view, parse_filter, parse_filter_spec, TopicError};

verus! {

/// What a rule rewrites: published topics, subscribed filters, or both.
#[derive(Debug, Clone, Copy, PartialEq, Eq, Structural)]
pub enum Action {
    All,
    Publish,
    Subscribe,
}

/// Why a rule was refused.
#[derive(Debug, Clone, Copy, PartialEq, Eq, Structural)]
pub enum RewriteError {
    /// A field the rule needs is missing.
    RuleFormat,
    /// The action is none of `all`, `publish`, `subscribe`.
    ActionFormat,
    /// A `$` placeholder is not followed by a number that fits.
    PlaceholderFormat,
    /// The rule's regex does not compile.
    Regex,
    /// The source topic filter does not parse.
    Topic(TopicError),
    /// Two rules have the same source topic filter.
    DuplicateFilter,
}

/// The code of `c` lowercased (ASCII letters only).
pub open spec fn ascii_lower(c: char) -> int {
    if 'A' <= c && c <= 'Z' {
        (c as u32) + 32
    } else {
        c as u32 as int
    }
}

/// `a` and `b` are equal once lowercased.
pub open spec fn eq_ignore_case(a: Seq<char>, b: Seq<char>) -> bool {
    a.len() == b.len() && forall|i: int| 0 <= i < a.len() ==> ascii_lower(#[trigger] a[i]) == ascii_lower(b[i])
}

/// The action a configured name selects, in any letter case.
pub open spec fn action_of(s: Seq<char>) -> Option<Action> {
    if eq_ignore_case(s, seq!['a', 'l', 'l']) {
        Some(Action::All)
    } else if eq_ignore_case(s, seq!['p', 'u', 'b', 'l', 'i', 's', 'h']) {
        Some(Action::Publish)
    } else if eq_ignore_case(s, seq!['s', 'u', 'b', 's', 'c', 'r', 'i', 'b', 'e']) {
        Some(Action::Subscribe)
    } else {
        None
    }
}

fn lower(c: char) -> (r: u32)
    ensures
        r == ascii_lower(c),
{
    if 'A' <= c && c <= 'Z' {
        (c as u32) + 32
    } else {
        c as u32
    }
}

/// Whether `a` and `b` are equal once lowercased (ASCII letters only).
pub fn eq_ignore_case_chars(a: &Vec<char>, b: &Vec<char>) -> (r: bool)
    ensures
        r == eq_ignore_case(a@, b@),
{
    if a.len() != b.len() {
        return false;
    }
    let mut i: usize = 0;
    while i < a.len()
        invariant
            a@.len() == b@.len(),
            i <= a@.len(),
            forall|j: int| 0 <= j < i ==> ascii_lower(#[trigger] a@[j]) == ascii_lower(b@[j]),
        decreases a@.len() - i,
    {
        if lower(a[i]) != lower(b[i]) {
            return false;
        }
        i += 1;
    }
    true
}

/// Reads an action name (`all`, `publish` or `subscribe`, in any case).
pub fn parse_action(name: &str) -> (r: Result<Action, RewriteError>)
    ensures
        match action_of(name@) {
            Some(a) => r matches Ok(x) && x == a,
            None => r matches Err(e) && e == RewriteError::ActionFormat,
        },
{
    let s = str_chars(name);
    let mut all: Vec<char> = Vec::new();
    all.push('a');
    all.push('l');
    all.push('l');
    let mut publish: Vec<char> = Vec::new();
    publish.push('p');
    publish.push('u');
    publish.push('b');
    publish.push('l');
    publish.push('i');
    publish.push('s');
    publish.push('h');
    let mut subscribe: Vec<char> = Vec::new();
    subscribe.push('s');
    subscribe.push('u');
    subscribe.push('b');
    subscribe.push('s');
    subscribe.push('c');
    subscribe.push('r');
    subscribe.push('i');
    subscribe.push('b');
    subscribe.push('e');
    proof {
        assert(all@ =~= seq!['a', 'l', 'l']);
        assert(publish@ =~= seq!['p', 'u', 'b', 'l', 'i', 's', 'h']);
        assert(subscribe@ =~= seq!['s', 'u', 'b', 's', 'c', 'r', 'i', 'b', 'e']);
    }
    if eq_ignore_case_chars(&s, &all) {
        Ok(Action::All)
    } else if eq_ignore_case_chars(&s, &publish) {
        Ok(Action::Publish)
    } else if eq_ignore_case_chars(&s, &subscribe) {
        Ok(Action::Subscribe)
    } else {
        Err(RewriteError::ActionFormat)
    }
}

/// One piece of a destination topic template.
#[derive(Debug, PartialEq, Eq)]
pub enum DestTopicItem {
    /// Literal text.
    Normal(String),
    /// The capture with this number of the rule's regex.
    Place(usize),
    /// The client id of the session.
    Clientid,
    /// The username of the session.
    Username,
}

pub enum DestItemView {
    Normal(Seq<char>),
    Place(usize),
    Clientid,
    Username,
}

impl View for DestTopicItem {
    type V = DestItemView;

    open spec fn view(&self) -> DestItemView {
        match self {
            DestTopicItem::Normal(s) => DestItemView::Normal(s@),
            DestTopicItem::Place(n) => DestItemView::Place(*n),
            DestTopicItem::Clientid => DestItemView::Clientid,
            DestTopicItem::Username => DestItemView::Username,
        }
    }
}

/// The default item: empty literal text.
impl Default for DestTopicItem {
    fn default() -> (r: DestTopicItem)
        ensures
            r@ == DestItemView::Normal(Seq::<char>::empty()),
    {
        DestTopicItem::Normal(String::new())
    }
}

pub open spec fn items_view(v: Seq<DestTopicItem>) -> Seq<DestItemView> {
    Seq::new(v.len(), |i: int| v[i]@)
}

pub open spec fn is_digit(c: char) -> bool {
    '0' <= c && c <= '9'
}

/// The number the decimal digits `d` spell.
pub open spec fn digits_value(d: Seq<char>) -> nat
    decreases d.len(),
{
    if d.len() == 0 {
        0
    } else {
        digits_value(d.drop_last()) * 10 + ((d.last() as u32) - ('0' as u32)) as nat
    }
}

/// `s` without a leading `+`.
pub open spec fn strip_plus(s: Seq<char>) -> Seq<char> {
    if s.len() > 0 && s[0] == '+' {
        s.drop_first()
    } else {
        s
    }
}

pub open spec fn all_digits(d: Seq<char>) -> bool {
    forall|i: int| 0 <= i < d.len() ==> is_digit(#[trigger] d[i])
}

/// What parsing `s` as a `usize` gives: an optional `+`, then one or more
/// decimal digits spelling a number that fits.
pub open spec fn parse_usize_spec(s: Seq<char>) -> Option<usize> {
    if strip_plus(s).len() > 0 && all_digits(strip_plus(s)) && digits_value(strip_plus(s)) <= usize::MAX {
        Some(digits_value(strip_plus(s)) as usize)
    } else {
        None
    }
}

/// Parses a `usize` (see [`parse_usize_spec`]).
pub fn parse_usize(s: &Vec<char>, from: usize) -> (r: Option<usize>)
    requires
        from <= s@.len(),
    ensures
        r == parse_usize_spec(s@.skip(from as int)),
{
    let ghost t = s@.skip(from as int);
    let mut i = from;
    if i < s.len() && s[i] == '+' {
        i += 1;
    }
    let ghost d = s@.skip(i as int);
    proof {
        if t.len() > 0 && t[0] == '+' {
            assert(t.drop_first() =~= d);
        } else {
            assert(t =~= d);
        }
    }
    if i == s.len() {
        return None;
    }
    let start = i;
    let mut n: usize = 0;
    proof {
        assert(d.take(0) =~= Seq::<char>::empty());
    }
    while i < s.len()
        invariant
            start <= i <= s@.len(),
            d == s@.skip(start as int),
            t == s@.skip(from as int),
            d.len() > 0,
            d == strip_plus(t),
            forall|k: int| 0 <= k < i - start ==> is_digit(#[trigger] d[k]),
            n == digits_value(d.take(i - start)),
        decreases s@.len() - i,
    {
        let c = s[i];
        proof {
            assert(d[i - start] == c);
        }
        if !('0' <= c && c <= '9') {
            proof {
                assert(!is_digit(d[i - start]));
                lemma_non_digit(t, i - start);
            }
            return None;
        }
        let dv = (c as u32 - '0' as u32) as usize;
        proof {
            assert(d.take(i - start + 1).drop_last() =~= d.take(i - start));
            assert(d.take(i - start + 1).last() == c);
            assert(digits_value(d.take(i - start + 1)) == n * 10 + dv);
            assert(is_digit(d[i - start]));
        }
        match n.checked_mul(10) {
            Some(m) => match m.checked_add(dv) {
                Some(m2) => {
                    n = m2;
                },
                None => {
                    proof {
                        lemma_digits_prefix_le(d, i - start + 1);
                    }
                    return None;
                },
            },
            None => {
                proof {
                    lemma_digits_prefix_le(d, i - start + 1);
                }
                return None;
            },
        }
        i += 1;
    }
    proof {
        assert(d.take(d.len() as int) =~= d);
    }
    Some(n)
}

proof fn lemma_non_digit(t: Seq<char>, j: int)
    requires
        0 <= j < strip_plus(t).len(),
        !is_digit(strip_plus(t)[j]),
    ensures
        parse_usize_spec(t) is None,
{
}

proof fn lemma_digits_prefix_le(d: Seq<char>, k: int)
    requires
        0 <= k <= d.len(),
    ensures
        all_digits(d) ==> digits_value(d.take(k)) <= digits_value(d),
    decreases d.len() - k,
{
    if k < d.len() && all_digits(d) {
        lemma_digits_prefix_le(d, k + 1);
        assert(d.take(k + 1).drop_last() =~= d.take(k));
        assert(d.take(k + 1).last() == d[k]);
    } else if k == d.len() {
        assert(d.take(k) =~= d);
    }
}

impl DestTopicItem {
    /// A literal piece.
    pub fn normal(normal: &str) -> (r: DestTopicItem)
        ensures
            r@ == DestItemView::Normal(normal@),
    {
        DestTopicItem::Normal(owned(normal))
    }

    /// A placeholder `$N` (its first character is skipped): the number
    /// after it, which must parse.
    pub fn place(place: &str) -> (r: Result<DestTopicItem, RewriteError>)
        requires
            place@.len() > 0 ==> (place@[0] as u32) < 128,
        ensures
            place@.len() >= 2 && parse_usize_spec(place@.drop_first()) is Some ==> (r matches Ok(item) && item@
                == DestItemView::Place(parse_usize_spec(place@.drop_first())->0)),
            !(place@.len() >= 2 && parse_usize_spec(place@.drop_first()) is Some) ==> (r matches Err(e) && e
                == RewriteError::PlaceholderFormat),
    {
        let cs = str_chars(place);
        if cs.len() >= 2 {
            proof {
                assert(cs@.skip(1) =~= place@.drop_first());
            }
            match parse_usize(&cs, 1) {
                Some(n) => Ok(DestTopicItem::Place(n)),
                None => Err(RewriteError::PlaceholderFormat),
            }
        } else {
            Err(RewriteError::PlaceholderFormat)
        }
    }
}

/// `${clientid}`.
pub open spec fn clientid_token() -> Seq<char> {
    seq!['$', '{', 'c', 'l', 'i', 'e', 'n', 't', 'i', 'd', '}']
}

/// `${username}`.
pub open spec fn username_token() -> Seq<char> {
    seq!['$', '{', 'u', 's', 'e', 'r', 'n', 'a', 'm', 'e', '}']
}

/// How many decimal digits follow from position `i` of `s`.
pub open spec fn digit_run(s: Seq<char>, i: int) -> nat
    decreases s.len() - i,
{
    if 0 <= i < s.len() && is_digit(s[i]) {
        1 + digit_run(s, i + 1)
    } else {
        0
    }
}

/// The length of the placeholder at position `i` of `s` (0 if none starts
/// there): `$` and the digits after it, else `${clientid}` or `${username}`.
pub open spec fn token_len(s: Seq<char>, i: int) -> nat {
    if 0 <= i < s.len() && s[i] == '$' {
        if digit_run(s, i + 1) > 0 {
            1 + digit_run(s, i + 1)
        } else if i + 11 <= s.len() && s.subrange(i, i + 11) == clientid_token() {
            11
        } else if i + 11 <= s.len() && s.subrange(i, i + 11) == username_token() {
            11
        } else {
            0
        }
    } else {
        0
    }
}

/// The item a placeholder stands for; `None` when its number does not fit.
pub open spec fn token_item(tok: Seq<char>) -> Option<DestItemView> {
    if tok == clientid_token() {
        Some(DestItemView::Clientid)
    } else if tok == username_token() {
        Some(DestItemView::Username)
    } else {
        match parse_usize_spec(tok.drop_first()) {
            Some(n) => Some(DestItemView::Place(n)),
            None => None,
        }
    }
}

/// The items of template `s` from position `i` on, where literal text began
/// at `start`; `None` when a placeholder's number does not fit.
pub open spec fn scan_items(s: Seq<char>, i: int, start: int) -> Option<Seq<DestItemView>>
    decreases s.len() - i,
{
    if i >= s.len() {
        if start < s.len() {
            Some(seq![DestItemView::Normal(s.subrange(start, s.len() as int))])
        } else {
            Some(Seq::empty())
        }
    } else {
        let t = token_len(s, i);
        if t == 0 {
            scan_items(s, i + 1, start)
        } else {
            proof {
                lemma_token_len_bound(s, i);
            }
            let pre = if i > start {
                seq![DestItemView::Normal(s.subrange(start, i))]
            } else {
                Seq::<DestItemView>::empty()
            };
            match token_item(s.subrange(i, i + t)) {
                Some(it) => match scan_items(s, i + t, i + t) {
                    Some(rest) => Some(pre.push(it) + rest),
                    None => None,
                },
                None => None,
            }
        }
    }
}

/// A run of digits stays inside the template.
pub proof fn lemma_digit_run_bound(s: Seq<char>, j: int)
    requires
        0 <= j,
    ensures
        j <= s.len() ==> digit_run(s, j) <= s.len() - j,
        digit_run(s, j) > 0 ==> j < s.len(),
    decreases s.len() - j,
{
    if 0 <= j < s.len() && is_digit(s[j]) {
        lemma_digit_run_bound(s, j + 1);
    }
}

/// A placeholder stays inside the template.
pub proof fn lemma_token_len_bound(s: Seq<char>, i: int)
    requires
        0 <= i < s.len(),
    ensures
        i + token_len(s, i) <= s.len(),
{
    lemma_digit_run_bound(s, i + 1);
}

pub open spec fn prepend_items(a: Seq<DestItemView>, r: Option<Seq<DestItemView>>) -> Option<Seq<DestItemView>> {
    match r {
        Some(rest) => Some(a + rest),
        None => None,
    }
}

fn chars_range(s: &Vec<char>, a: usize, b: usize) -> (v: Vec<char>)
    requires
        a <= b <= s@.len(),
    ensures
        v@ == s@.subrange(a as int, b as int),
{
    let mut v: Vec<char> = Vec::new();
    let mut k = a;
    while k < b
        invariant
            a <= k <= b,
            b <= s@.len(),
            v@ == s@.subrange(a as int, k as int),
        decreases b - k,
    {
        v.push(s[k]);
        k += 1;
        proof {
            assert(v@ =~= s@.subrange(a as int, k as int));
        }
    }
    v
}

fn token_at(s: &Vec<char>, i: usize) -> (t: usize)
    requires
        i < s@.len(),
    ensures
        t == token_len(s@, i as int),
        i + t <= s@.len(),
{
    let n = s.len();
    proof {
        lemma_token_len_bound(s@, i as int);
    }
    if s[i] != '$' {
        return 0;
    }
    let mut j = i + 1;
    while j < n && '0' <= s[j] && s[j] <= '9'
        invariant
            n == s@.len(),
            i < j <= s@.len(),
            digit_run(s@, i + 1) == (j - (i + 1)) + digit_run(s@, j as int),
        decreases s@.len() - j,
    {
        j += 1;
    }
    if j > i + 1 {
        return j - i;
    }
    if n - i >= 11 {
        let tok = chars_range(s, i, i + 11);
        let c = crate::text::str_chars("${clientid}");
        let u = crate::text::str_chars("${username}");
        proof {
            reveal_strlit("${clientid}");
            reveal_strlit("${username}");
            assert(c@ =~= clientid_token());
            assert(u@ =~= username_token());
        }
        if crate::text::chars_eq(&tok, &c) {
            return 11;
        }
        if crate::text::chars_eq(&tok, &u) {
            return 11;
        }
    }
    0
}

/// Splits a destination topic template into its literal pieces and its
/// placeholders (see [`scan_items`]). Fails when a `$` placeholder's number
/// does not fit.
pub fn to_dest_topic_items(dest_topic: &str) -> (r: Result<Vec<DestTopicItem>, RewriteError>)
    ensures
        match scan_items(dest_topic@, 0, 0) {
            Some(items) => r matches Ok(v) && items_view(v@) == items,
            None => r matches Err(e) && e == RewriteError::PlaceholderFormat,
        },
{
    let s = str_chars(dest_topic);
    let n = s.len();
    let mut items: Vec<DestTopicItem> = Vec::new();
    let mut i: usize = 0;
    let mut start: usize = 0;
    proof {
        assert(items_view(items@) =~= Seq::<DestItemView>::empty());
        assert(prepend_items(Seq::empty(), scan_items(s@, 0, 0)) == scan_items(s@, 0, 0)) by {
            match scan_items(s@, 0, 0) {
                Some(r) => {
                    assert(Seq::<DestItemView>::empty() + r =~= r);
                },
                None => {},
            }
        }
    }
    while i < n
        invariant
            n == s@.len(),
            s@ == dest_topic@,
            start <= i <= n,
            prepend_items(items_view(items@), scan_items(s@, i as int, start as int)) == scan_items(s@, 0, 0),
        decreases n - i,
    {
        let t = token_at(&s, i);
        if t == 0 {
            i += 1;
        } else {
            let ghost before = items_view(items@);
            let ghost pre = if i > start {
                seq![DestItemView::Normal(s@.subrange(start as int, i as int))]
            } else {
                Seq::<DestItemView>::empty()
            };
            if i > start {
                let text = chars_range(&s, start, i);
                items.push(DestTopicItem::Normal(string_from_chars(&text)));
            }
            proof {
                assert(items_view(items@) =~= before + pre);
            }
            let tok = chars_range(&s, i, i + t);
            let c = crate::text::str_chars("${clientid}");
            let u = crate::text::str_chars("${username}");
            proof {
                reveal_strlit("${clientid}");
                reveal_strlit("${username}");
                assert(c@ =~= clientid_token());
                assert(u@ =~= username_token());
            }
            let item = if crate::text::chars_eq(&tok, &c) {
                DestTopicItem::Clientid
            } else if crate::text::chars_eq(&tok, &u) {
                DestTopicItem::Username
            } else {
                proof {
                    assert(tok@.skip(1) =~= tok@.drop_first());
                }
                match parse_usize(&tok, 1) {
                    Some(v) => DestTopicItem::Place(v),
                    None => {
                        proof {
                            assert(token_item(s@.subrange(i as int, i + t)) is None);
                        }
                        return Err(RewriteError::PlaceholderFormat);
                    },
                }
            };
            let ghost itv = item@;
            proof {
                assert(token_item(s@.subrange(i as int, i + t)) == Some(itv));
            }
            items.push(item);
            proof {
                assert(items_view(items@) =~= (before + pre).push(itv));
                match scan_items(s@, i + t, i + t) {
                    Some(rest) => {
                        assert((before + pre).push(itv) + rest =~= before + (pre.push(itv) + rest));
                    },
                    None => {},
                }
            }
            i = i + t;
            start = i;
        }
    }
    proof {
        assert(i == n);
    }
    if start < n {
        let text = chars_range(&s, start, n);
        let ghost before = items_view(items@);
        items.push(DestTopicItem::Normal(string_from_chars(&text)));
        proof {
            assert(items_view(items@) =~= before + seq![DestItemView::Normal(s@.subrange(start as int, n as int))]);
        }
    } else {
        proof {
            assert(items_view(items@) + Seq::<DestItemView>::empty() =~= items_view(items@));
        }
    }
    Ok(items)
}

/// Whether `pattern` compiles as a regular expression of the `regex` crate.
pub uninterp spec fn regex_compiles(pattern: Seq<char>) -> bool;

/// `regex::Regex::new`: whether `pattern` compiles; the contract names the
/// answer and says nothing of which patterns compile.
#[verifier::external_body]
fn regex_new_ok(pattern: &str) -> (ok: bool)
    ensures
        ok == regex_compiles(pattern@),
{
    regex::Regex::new(pattern).is_ok()
}

/// A topic rewriting rule.
pub struct Rule {
    pub action: Action,
    pub source_topic_filter: String,
    pub dest_topic: String,
    pub dest_topic_items: Vec<DestTopicItem>,
    /// The regex whose captures fill the `$N` placeholders.
    pub re: Option<String>,
}

pub open spec fn opt_view(o: Option<&str>) -> Option<Seq<char>> {
    match o {
        Some(s) => Some(s@),
        None => None,
    }
}

/// The outcome of reading a rule from its configured fields: the action
/// (`None` when missing, `Some(None)` when not text), the source topic
/// filter, the destination topic and the optional regex, `re_ok` telling
/// whether the regex compiles.
pub open spec fn rule_check_with(
    action: Option<Option<Seq<char>>>,
    source: Option<Seq<char>>,
    dest: Option<Seq<char>>,
    re: Option<Seq<char>>,
    re_ok: bool,
) -> Result<(Action, Seq<DestItemView>), RewriteError> {
    if action is None || source is None || dest is None {
        Err(RewriteError::RuleFormat)
    } else if action->0 is None || action_of(action->0->0) is None {
        Err(RewriteError::ActionFormat)
    } else if re is Some && !re_ok {
        Err(RewriteError::Regex)
    } else {
        match scan_items(dest->0, 0, 0) {
            Some(items) => Ok((action_of(action->0->0)->0, items)),
            None => Err(RewriteError::PlaceholderFormat),
        }
    }
}

/// [`rule_check_with`] for the regex as the `regex` crate compiles it.
pub open spec fn rule_check(
    action: Option<Option<Seq<char>>>,
    source: Option<Seq<char>>,
    dest: Option<Seq<char>>,
    re: Option<Seq<char>>,
) -> Result<(Action, Seq<DestItemView>), RewriteError> {
    rule_check_with(action, source, dest, re, re is Some && regex_compiles(re->0))
}

impl Rule {
    /// Reads a rule from its configured fields (see [`rule_check`]),
    /// asking the `regex` crate whether its regex compiles.
    pub fn from_config(
        action: Option<Option<&str>>,
        source_topic_filter: Option<&str>,
        dest_topic: Option<&str>,
        regex: Option<&str>,
    ) -> (r: Result<Rule, RewriteError>)
        ensures
            match rule_check(
                match action {
                    Some(a) => Some(opt_view(a)),
                    None => None,
                },
                opt_view(source_topic_filter),
                opt_view(dest_topic),
                opt_view(regex),
            ) {
                Ok((a, items)) => r matches Ok(rule) && rule.action == a && rule.source_topic_filter@
                    == source_topic_filter->0@ && rule.dest_topic@ == dest_topic->0@ && items_view(
                    rule.dest_topic_items@,
                ) == items && match (rule.re, regex) {
                    (Some(x), Some(p)) => x@ == p@,
                    (None, None) => true,
                    _ => false,
                },
                Err(e) => r matches Err(e2) && e2 == e,
            },
    {
        let re_ok = match regex {
            Some(p) => regex_new_ok(p),
            None => false,
        };
        Rule::from_checked_config(action, source_topic_filter, dest_topic, regex, re_ok)
    }

    /// Reads a rule from its configured fields, `re_ok` telling whether its
    /// regex compiles (see [`rule_check_with`]).
    pub fn from_checked_config(
        action: Option<Option<&str>>,
        source_topic_filter: Option<&str>,
        dest_topic: Option<&str>,
        regex: Option<&str>,
        re_ok: bool,
    ) -> (r: Result<Rule, RewriteError>)
        ensures
            match rule_check_with(
                match action {
                    Some(a) => Some(opt_view(a)),
                    None => None,
                },
                opt_view(source_topic_filter),
                opt_view(dest_topic),
                opt_view(regex),
                re_ok,
            ) {
                Ok((a, items)) => r matches Ok(rule) && rule.action == a && rule.source_topic_filter@
                    == source_topic_filter->0@ && rule.dest_topic@ == dest_topic->0@ && items_view(
                    rule.dest_topic_items@,
                ) == items && match (rule.re, regex) {
                    (Some(x), Some(p)) => x@ == p@,
                    (None, None) => true,
                    _ => false,
                },
                Err(e) => r matches Err(e2) && e2 == e,
            },
    {
        let (a, source, dest) = match (action, source_topic_filter, dest_topic) {
            (Some(a), Some(s), Some(d)) => (a, s, d),
            _ => return Err(RewriteError::RuleFormat),
        };
        let action = match a {
            Some(name) => parse_action(name)?,
            None => return Err(RewriteError::ActionFormat),
        };
        let re = match regex {
            Some(p) => {
                if !re_ok {
                    return Err(RewriteError::Regex);
                }
                Some(owned(p))
            },
            None => None,
        };
        let items = to_dest_topic_items(dest)?;
        Ok(Rule {
            action,
            source_topic_filter: owned(source),
            dest_topic: owned(dest),
            dest_topic_items: items,
            re,
        })
    }
}

/// The outcome of checking the source topic filters of a rule list, in
/// order: each must parse, and none may repeat an earlier one.
pub open spec fn filters_check(fs: Seq<Seq<char>>) -> Result<(), RewriteError>
    decreases fs.len(),
{
    if fs.len() == 0 {
        Ok(())
    } else {
        match filters_check(fs.drop_last()) {
            Err(e) => Err(e),
            Ok(_) => match parse_filter_spec(fs.last()) {
                Err(e) => Err(RewriteError::Topic(e)),
                Ok(l) => if exists|j: int|
                    0 <= j < fs.len() - 1 && #[trigger] parse_filter_spec(fs[j]) == Ok::<
                        Seq<Seq<char>>,
                        TopicError,
                    >(l) {
                    Err(RewriteError::DuplicateFilter)
                } else {
                    Ok(())
                },
            },
        }
    }
}

/// A failure found in a prefix of the list is the list's failure.
pub proof fn lemma_filters_prefix_err(fs: Seq<Seq<char>>, m: int)
    requires
        0 <= m <= fs.len(),
        filters_check(fs.take(m)) is Err,
    ensures
        filters_check(fs) == filters_check(fs.take(m)),
    decreases fs.len() - m,
{
    if m == fs.len() {
        assert(fs.take(m) =~= fs);
    } else {
        let p = fs.take(m + 1);
        assert(p.drop_last() =~= fs.take(m));
        assert(filters_check(p) == filters_check(fs.take(m)));
        lemma_filters_prefix_err(fs, m + 1);
    }
}

pub open spec fn rule_filters(rules: Seq<Rule>) -> Seq<Seq<char>> {
    Seq::new(rules.len(), |i: int| rules[i].source_topic_filter@)
}

fn levels_eq(a: &Vec<Vec<char>>, b: &Vec<Vec<char>>) -> (r: bool)
    ensures
        r == (levels_view(a@) == levels_view(b@)),
{
    if a.len() != b.len() {
        proof {
            assert(levels_view(a@).len() != levels_view(b@).len());
        }
        return false;
    }
    let mut i: usize = 0;
    while i < a.len()
        invariant
            a@.len() == b@.len(),
            i <= a@.len(),
            forall|j: int| 0 <= j < i ==> levels_view(a@)[j] == levels_view(b@)[j],
        decreases a@.len() - i,
    {
        if !crate::text::chars_eq(&a[i], &b[i]) {
            proof {
                assert(levels_view(a@)[i as int] != levels_view(b@)[i as int]);
            }
            return false;
        }
        i += 1;
    }
    proof {
        assert(levels_view(a@) =~= levels_view(b@));
    }
    true
}

/// Checks a rule list: every source topic filter parses and none repeats
/// another (see [`filters_check`]).
pub fn check_rules(rules: &Vec<Rule>) -> (r: Result<(), RewriteError>)
    ensures
        r == filters_check(rule_filters(rules@)),
{
    let ghost fs = rule_filters(rules@);
    let mut seen: Vec<Vec<Vec<char>>> = Vec::new();
    let mut k: usize = 0;
    proof {
        assert(fs.take(0) =~= Seq::<Seq<char>>::empty());
    }
    while k < rules.len()
        invariant
            fs == rule_filters(rules@),
            k <= fs.len(),
            seen@.len() == k,
            forall|j: int| 0 <= j < k ==> parse_filter_spec(fs[j]) == Ok::<Seq<Seq<char>>, TopicError>(levels_view(#[trigger] seen@[j]@)),
            filters_check(fs.take(k as int)) == Ok::<(), RewriteError>(()),
        decreases fs.len() - k,
    {
        let cs = str_chars(rules[k].source_topic_filter.as_str());
        proof {
            assert(fs.take(k + 1).drop_last() =~= fs.take(k as int));
            assert(fs.take(k + 1).last() == fs[k as int]);
        }
        let levels = match parse_filter(&cs) {
            Ok(l) => l,
            Err(e) => {
                proof {
                    lemma_filters_prefix_err(fs, k + 1);
                }
                return Err(RewriteError::Topic(e));
            },
        };
        let mut j: usize = 0;
        while j < seen.len()
            invariant
                seen@.len() == k,
                j <= k,
                k < fs.len(),
                fs == rule_filters(rules@),
                filters_check(fs.take(k as int)) == Ok::<(), RewriteError>(()),
                fs.take(k + 1).drop_last() == fs.take(k as int),
                fs.take(k + 1).last() == fs[k as int],
                forall|q: int| 0 <= q < k ==> parse_filter_spec(fs[q]) == Ok::<Seq<Seq<char>>, TopicError>(levels_view(#[trigger] seen@[q]@)),
                parse_filter_spec(fs[k as int]) == Ok::<Seq<Seq<char>>, TopicError>(levels_view(levels@)),
                forall|q: int| 0 <= q < j ==> levels_view((#[trigger] seen@[q])@) != levels_view(levels@),
            decreases k - j,
        {
            if levels_eq(&seen[j], &levels) {
                proof {
                    let ft = fs.take(k + 1);
                    assert(ft[j as int] == fs[j as int]);
                    assert(parse_filter_spec(ft[j as int]) == Ok::<Seq<Seq<char>>, TopicError>(levels_view(levels@)));
                    assert(filters_check(ft) == Err::<(), RewriteError>(RewriteError::DuplicateFilter));
                    lemma_filters_prefix_err(fs, k + 1);
                }
                return Err(RewriteError::DuplicateFilter);
            }
            j += 1;
        }
        proof {
            let ft = fs.take(k + 1);
            if exists|q: int| 0 <= q < ft.len() - 1 && #[trigger] parse_filter_spec(ft[q]) == Ok::<
                Seq<Seq<char>>,
                TopicError,
            >(levels_view(levels@)) {
                let q = choose|q: int| 0 <= q < ft.len() - 1 && #[trigger] parse_filter_spec(ft[q]) == Ok::<
                    Seq<Seq<char>>,
                    TopicError,
                >(levels_view(levels@));
                assert(ft[q] == fs[q]);
                assert(levels_view(seen@[q]@) == levels_view(levels@));
            }
        }
        seen.push(levels);
        k += 1;
    }
    proof {
        assert(fs.take(fs.len() as int) =~= fs);
    }
    Ok(())
}

} // verus!
