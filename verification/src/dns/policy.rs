//! The decision: resolve a name, or deny that it exists.
//!
//! Nothing here touches the network. The source of truth is the cache, which
//! marks a name in two ways, both honoured: by a key of that name, or by its
//! membership of the set [`BLACKLIST_SET`](crate::filter::BLACKLIST_SET). A
//! marked name covers its subdomains.
//!
//! The cache is asked one question at a time: [`Policy::decide`] decides, or
//! says what to ask; [`Policy::answer`] takes the reply, and decides or says
//! what to ask next.

use vstd::hash_map::StringHashMap;
use vstd::prelude::*;
use vstd::slice::slice_subrange;

use crate::text;

verus! {

/// How long a decision is used again without asking the cache, in
/// nanoseconds: 30 seconds.
///
/// A client repeats the same question dozens of times a minute; without this
/// memory, each would cost a round trip per suffix.
pub const DEFAULT_TTL: u128 = 30_000_000_000;

/// How many decisions are kept before the table is emptied.
pub const MAX_MEMO: usize = 4096;

/// How many suffixes of a name are looked up, the whole name included.
pub const MAX_SUFFIXES: usize = 8;

/// What is done with a question.
#[derive(Debug, Clone, Copy, PartialEq, Eq, Structural)]
pub enum Verdict {
    /// The question goes upstream.
    Resolve,
    /// The client is told that the name does not exist; the question does not
    /// leave the tunnel.
    Deny,
}

/// What was decided, and why.
#[derive(Debug, Clone, PartialEq, Eq)]
pub struct Decision {
    /// What is done with the question.
    pub verdict: Verdict,
    /// The marked name that caused the denial: the name asked for or one of
    /// its parents. `None` where the question passes.
    pub matched: Option<String>,
}

/// The decision that follows from the marked name found, if one was.
pub open spec fn decides(decision: Decision, rule: Option<Seq<char>>) -> bool {
    &&& decision.verdict == (if rule is Some {
        Verdict::Deny
    } else {
        Verdict::Resolve
    })
    &&& text::option_view(decision.matched) == rule
}

impl Decision {
    /// The question passes.
    pub fn resolve() -> (r: Self)
        ensures
            decides(r, None),
    {
        Decision { verdict: Verdict::Resolve, matched: None }
    }

    /// The question is refused because of this marked name.
    pub fn deny(rule: String) -> (r: Self)
        ensures
            decides(r, Some(rule@)),
    {
        Decision { verdict: Verdict::Deny, matched: Some(rule) }
    }

    /// True if the question was refused.
    pub fn denied(&self) -> (r: bool)
        ensures
            r == (self.verdict == Verdict::Deny),
    {
        self.verdict == Verdict::Deny
    }
}

// ---------------------------------------------------------------------------
// The names looked up
// ---------------------------------------------------------------------------

/// What follows each dot of a name, where that is not empty: its parents, the
/// longest first.
pub open spec fn parents(name: Seq<char>) -> Seq<Seq<char>>
    decreases name.len(),
{
    let at = text::position(name, '.');
    if at < 0 || at >= name.len() {
        Seq::empty()
    } else {
        let rest = name.skip(at + 1);
        if rest.len() == 0 {
            Seq::empty()
        } else {
            seq![rest] + parents(rest)
        }
    }
}

/// The first ones of a list, as many as are looked up.
pub open spec fn first_ones(names: Seq<Seq<char>>) -> Seq<Seq<char>> {
    if names.len() > MAX_SUFFIXES {
        names.take(MAX_SUFFIXES as int)
    } else {
        names
    }
}

/// The name, then each of its parents.
///
/// A name with a backslash has been escaped: its dots are no sure borders of
/// labels any more, and it is looked up whole only.
pub open spec fn candidates(name: Seq<char>) -> Seq<Seq<char>> {
    if name.len() == 0 {
        Seq::empty()
    } else if name.contains('\\') {
        seq![name]
    } else {
        first_ones(seq![name] + parents(name))
    }
}

/// The name, then each of its parents: `a.b.com`, `b.com`, `com`.
pub fn suffixes(name: &str) -> (r: Vec<String>)
    ensures
        text::string_views(r@) == candidates(name@),
{
    let chars = text::chars_of(name);
    let whole = chars.as_slice();
    let mut out: Vec<String> = Vec::new();
    if whole.len() == 0 {
        assert(text::string_views(out@) =~= candidates(name@));
        return out;
    }
    out.push(text::from_chars(whole));
    assert(text::string_views(out@) =~= seq![name@]);
    if text::find(whole, '\\') < whole.len() {
        return out;
    }
    let mut rest: &[char] = whole;
    let ghost all = seq![name@] + parents(name@);
    assert(all =~= text::string_views(out@) + parents(rest@));
    while out.len() < MAX_SUFFIXES
        invariant
            1 <= out@.len() <= MAX_SUFFIXES,
            all == text::string_views(out@) + parents(rest@),
            name@.len() > 0,
            !name@.contains('\\'),
            all == seq![name@] + parents(name@),
        decreases MAX_SUFFIXES - out@.len(),
    {
        let at = text::find(rest, '.');
        if at == rest.len() || at + 1 == rest.len() {
            proof {
                if at + 1 == rest@.len() {
                    assert(rest@.skip(at + 1).len() == 0);
                }
                assert(text::string_views(out@) =~= all);
            }
            return out;
        }
        let ghost out_before = out@;
        let ghost rest_before = rest@;
        rest = slice_subrange(rest, at + 1, rest.len());
        assert(rest@ =~= rest_before.skip(at + 1));
        out.push(text::from_chars(rest));
        assert(text::string_views(out@) =~= text::string_views(out_before).push(rest@));
        assert(all =~= text::string_views(out@) + parents(rest@));
    }
    assert(text::string_views(out@) =~= first_ones(all));
    out
}

// ---------------------------------------------------------------------------
// The questions
// ---------------------------------------------------------------------------

/// What the cache is asked.
#[derive(Debug, Clone, PartialEq, Eq)]
pub enum Question {
    /// Is there a key of this name?
    Exists(String),
    /// Is this name a member of the blacklist?
    Listed(String),
}

/// How far the search has come: the candidate it is at, and whether the
/// question about its key has been answered.
pub struct Progress {
    /// The place of the candidate.
    pub at: int,
    /// The key is known not to be there: the list is asked.
    pub listed: bool,
}

/// What a reply makes of a search: the name found, or where to go on.
pub enum Next {
    /// The search is over: the marked name, if there is one.
    Done(Option<Seq<char>>),
    /// The search goes on.
    Ask(Progress),
}

/// The start of a search, or of what is left of it.
pub open spec fn search_from(names: Seq<Seq<char>>, at: int) -> Next {
    if at < names.len() {
        Next::Ask(Progress { at, listed: false })
    } else {
        Next::Done(None)
    }
}

/// What follows from a reply. A name is marked where either question is
/// answered yes. No reply (`None`) leaves the name unmarked: to deny every
/// name because the cache is away would cut the clients off.
pub open spec fn next(names: Seq<Seq<char>>, progress: Progress, reply: Option<bool>) -> Next {
    match reply {
        Some(true) => Next::Done(Some(names[progress.at])),
        Some(false) => if progress.listed {
            search_from(names, progress.at + 1)
        } else {
            Next::Ask(Progress { at: progress.at, listed: true })
        },
        None => search_from(names, progress.at + 1),
    }
}

/// A search under way for the marked name that covers another.
#[derive(Debug)]
pub struct Lookup {
    name: String,
    names: Vec<String>,
    at: usize,
    listed: bool,
}

impl Lookup {
    /// The name searched for, in small letters.
    pub closed spec fn name(&self) -> Seq<char> {
        self.name@
    }

    /// The names looked up.
    pub open spec fn names(&self) -> Seq<Seq<char>> {
        candidates(self.name())
    }

    /// How far the search has come.
    pub closed spec fn progress(&self) -> Progress {
        Progress { at: self.at as int, listed: self.listed }
    }

    /// The search is at a name.
    pub closed spec fn wf(&self) -> bool {
        &&& text::string_views(self.names@) == candidates(self.name@)
        &&& self.at < self.names@.len()
    }

    /// What the cache is to be asked.
    pub fn question(&self) -> (r: Question)
        requires
            self.wf(),
        ensures
            asks(r, self.names(), self.progress()),
    {
        assert(text::string_views(self.names@)[self.at as int] == self.names@[self.at as int]@);
        let name = text::copy(self.names[self.at].as_str());
        if self.listed {
            Question::Listed(name)
        } else {
            Question::Exists(name)
        }
    }
}

/// The question that belongs to a point of a search.
pub open spec fn asks(question: Question, names: Seq<Seq<char>>, progress: Progress) -> bool {
    match question {
        Question::Exists(name) => !progress.listed && name@ == names[progress.at],
        Question::Listed(name) => progress.listed && name@ == names[progress.at],
    }
}

/// What comes of a question to the policy.
pub enum Outcome {
    /// The decision.
    Decided(Decision),
    /// The cache has to be asked first.
    Ask(Lookup),
}

/// An outcome follows from a search.
pub open spec fn comes_to(outcome: Outcome, name: Seq<char>, found: Next) -> bool {
    match found {
        Next::Done(rule) => outcome matches Outcome::Decided(d) && decides(d, rule),
        Next::Ask(progress) => {
            &&& outcome matches Outcome::Ask(lookup)
            &&& lookup.wf()
            &&& lookup.name() == name
            &&& lookup.progress() == progress
        },
    }
}

// ---------------------------------------------------------------------------
// The memory
// ---------------------------------------------------------------------------

/// A decision that was taken, and when.
#[derive(Debug)]
pub struct Memo {
    /// The marked name, if there was one.
    pub rule: Option<String>,
    /// When it was decided, in nanoseconds.
    pub at: u128,
}

/// What is remembered: for each name the marked name that denies it, if one
/// does, and when that was decided.
pub type Memory = Map<Seq<char>, (Option<Seq<char>>, u128)>;

/// How long ago something was, never less than nothing.
pub open spec fn elapsed(since: u128, now: u128) -> int {
    if now >= since {
        now - since
    } else {
        0
    }
}

/// What is remembered of a name and still holds.
pub open spec fn recalled(memory: Memory, name: Seq<char>, ttl: u128, now: u128) -> Option<
    Option<Seq<char>>,
> {
    if memory.contains_key(name) && elapsed(memory[name].1, now) < ttl {
        Some(memory[name].0)
    } else {
        None
    }
}

/// The memory with one more decision. A full memory is emptied first.
pub open spec fn remembered(
    memory: Memory,
    name: Seq<char>,
    rule: Option<Seq<char>>,
    now: u128,
) -> Memory {
    let kept = if memory.len() >= MAX_MEMO {
        Map::empty()
    } else {
        memory
    };
    kept.insert(name, (rule, now))
}

/// Applies the marks of the cache to the names asked for.
pub struct Policy {
    memo: StringHashMap<Memo>,
    ttl: u128,
}

impl Policy {
    /// What is remembered.
    pub closed spec fn memory(&self) -> Memory {
        self.memo@.map_values(|m: Memo| (text::option_view(m.rule), m.at))
    }

    /// How long a decision holds.
    pub closed spec fn ttl(&self) -> u128 {
        self.ttl
    }

    /// The memory is bounded.
    pub open spec fn wf(&self) -> bool {
        self.memory().dom().finite() && self.memory().len() <= MAX_MEMO
    }

    /// A policy that remembers nothing yet.
    pub fn new() -> (r: Self)
        ensures
            r.wf(),
            r.memory() == Memory::empty(),
            r.ttl() == DEFAULT_TTL,
    {
        let r = Policy { memo: StringHashMap::new(), ttl: DEFAULT_TTL };
        assert(r.memory() =~= Memory::empty());
        r
    }

    /// Changes how long a decision holds.
    ///
    /// With zero the cache is asked at every question.
    pub fn with_ttl(self, ttl: u128) -> (r: Self)
        requires
            self.wf(),
        ensures
            r.wf(),
            r.memory() == self.memory(),
            r.ttl() == ttl,
    {
        Policy { memo: self.memo, ttl }
    }

    /// How many decisions are remembered.
    pub fn memoized(&self) -> (r: usize)
        ensures
            r == self.memory().len(),
    {
        assert(self.memory().dom() =~= self.memo@.dom());
        self.memo.len()
    }

    /// Decides on a name, or says what to ask.
    ///
    /// Names are the same whatever their case, and the cache knows one
    /// spelling only, in small letters.
    pub fn decide(&mut self, name: &str, now: u128) -> (r: Outcome)
        requires
            old(self).wf(),
        ensures
            final(self).wf(),
            final(self).ttl() == old(self).ttl(),
            ({
                let low = text::lowered(name@);
                match recalled(old(self).memory(), low, old(self).ttl(), now) {
                    Some(rule) => comes_to(r, low, Next::Done(rule)) && final(self).memory()
                        == old(self).memory(),
                    None => {
                        let found = search_from(candidates(low), 0);
                        &&& comes_to(r, low, found)
                        &&& final(self).memory() == (match found {
                            Next::Done(rule) => remembered(old(self).memory(), low, rule, now),
                            Next::Ask(_) => old(self).memory(),
                        })
                    },
                }
            }),
    {
        let low = text::from_chars(text::to_lower(text::chars_of(name).as_slice()).as_slice());
        if let Some(memo) = self.memo.get(low.as_str()) {
            let age: u128 = if now >= memo.at {
                now - memo.at
            } else {
                0
            };
            if age < self.ttl {
                return Outcome::Decided(
                    match &memo.rule {
                        Some(rule) => Decision::deny(text::copy(rule.as_str())),
                        None => Decision::resolve(),
                    },
                );
            }
        }
        let names = suffixes(low.as_str());
        assert(text::string_views(names@).len() == names@.len());
        if names.len() == 0 {
            self.remember(low, None, now);
            return Outcome::Decided(Decision::resolve());
        }
        Outcome::Ask(Lookup { name: low, names, at: 0, listed: false })
    }

    /// Goes on with a search: takes the reply to [`Lookup::question`], `None`
    /// where the cache gave none.
    pub fn answer(&mut self, lookup: Lookup, reply: Option<bool>, now: u128) -> (r: Outcome)
        requires
            old(self).wf(),
            lookup.wf(),
        ensures
            final(self).wf(),
            final(self).ttl() == old(self).ttl(),
            ({
                let found = next(lookup.names(), lookup.progress(), reply);
                &&& comes_to(r, lookup.name(), found)
                &&& final(self).memory() == (match found {
                    Next::Done(rule) => remembered(
                        old(self).memory(),
                        lookup.name(),
                        rule,
                        now,
                    ),
                    Next::Ask(_) => old(self).memory(),
                })
            }),
    {
        let ghost names = lookup.names();
        assert(names.len() == lookup.names@.len());
        let Lookup { name, names: list, at, listed } = lookup;
        match reply {
            Some(true) => {
                assert(names[at as int] == list@[at as int]@);
                let rule = text::copy(list[at].as_str());
                self.remember(name, Some(text::copy(rule.as_str())), now);
                Outcome::Decided(Decision::deny(rule))
            },
            Some(false) if !listed => Outcome::Ask(Lookup { name, names: list, at, listed: true }),
            _ => {
                if at + 1 < list.len() {
                    Outcome::Ask(Lookup { name, names: list, at: at + 1, listed: false })
                } else {
                    self.remember(name, None, now);
                    Outcome::Decided(Decision::resolve())
                }
            },
        }
    }

    /// Keeps a decision.
    fn remember(&mut self, name: String, rule: Option<String>, now: u128)
        requires
            old(self).wf(),
        ensures
            final(self).wf(),
            final(self).ttl() == old(self).ttl(),
            final(self).memory() == remembered(
                old(self).memory(),
                name@,
                text::option_view(rule),
                now,
            ),
    {
        assert(self.memory().dom() =~= self.memo@.dom());
        // Nobody will say that a name is not going to be asked for any more:
        // the memory is bounded, at the price of forgetting all at once.
        if self.memo.len() >= MAX_MEMO {
            self.memo.clear();
            assert(self.memory() =~= Memory::empty());
        }
        self.memo.insert(name, Memo { rule, at: now });
        assert(self.memory() =~= remembered(
            old(self).memory(),
            name@,
            text::option_view(rule),
            now,
        ));
    }
}

// ---------------------------------------------------------------------------
// Laws
// ---------------------------------------------------------------------------

/// What a cache replies to the two questions about a name, `None` where it
/// gives no reply.
pub struct Replies {
    /// Is there a key of this name?
    pub exists: spec_fn(Seq<char>) -> Option<bool>,
    /// Is this name a member of the blacklist?
    pub listed: spec_fn(Seq<char>) -> Option<bool>,
}

/// A cache marks a name: by a key, or, where it says that there is none, by
/// the list.
pub open spec fn is_marked(replies: Replies, name: Seq<char>) -> bool {
    match (replies.exists)(name) {
        Some(true) => true,
        Some(false) => (replies.listed)(name) == Some(true),
        None => false,
    }
}

/// The first marked name of a list, from a place on.
pub open spec fn first_marked(names: Seq<Seq<char>>, at: int, replies: Replies) -> Option<
    Seq<char>,
>
    decreases names.len() - at,
{
    if at < 0 || at >= names.len() {
        None
    } else if is_marked(replies, names[at]) {
        Some(names[at])
    } else {
        first_marked(names, at + 1, replies)
    }
}

/// What a search comes to when a cache replies to all its questions.
pub open spec fn search_result(names: Seq<Seq<char>>, found: Next, replies: Replies) -> Option<
    Seq<char>,
>
    decreases
            (match found {
                Next::Done(_) => 0,
                Next::Ask(p) => 2 * (names.len() - p.at) + (if p.listed {
                    0int
                } else {
                    1
                }),
            }),
{
    match found {
        Next::Done(rule) => rule,
        Next::Ask(p) => if 0 <= p.at < names.len() {
            let reply = if p.listed {
                (replies.listed)(names[p.at])
            } else {
                (replies.exists)(names[p.at])
            };
            search_result(names, next(names, p, reply), replies)
        } else {
            None
        },
    }
}

/// The search finds the first marked name, from the name asked for towards
/// the root, and nothing else.
pub proof fn law_search_finds_the_first_marked_name(name: Seq<char>, replies: Replies)
    ensures
        search_result(candidates(name), search_from(candidates(name), 0), replies)
            == first_marked(candidates(name), 0, replies),
{
    lemma_search_from(candidates(name), 0, replies);
}

/// The same, from any name of the list on.
proof fn lemma_search_from(names: Seq<Seq<char>>, at: int, replies: Replies)
    requires
        0 <= at,
    ensures
        search_result(names, search_from(names, at), replies) == first_marked(names, at, replies),
    decreases names.len() - at,
{
    if at < names.len() {
        lemma_search_from(names, at + 1, replies);
        let first = Progress { at, listed: false };
        let second = Progress { at, listed: true };
        let asked = (replies.exists)(names[at]);
        assert(search_result(names, Next::Ask(first), replies) == search_result(
            names,
            next(names, first, asked),
            replies,
        ));
        if asked == Some(false) {
            assert(search_result(names, Next::Ask(second), replies) == search_result(
                names,
                next(names, second, (replies.listed)(names[at])),
                replies,
            ));
        }
    }
}

/// A cache that gives no reply denies no name.
pub proof fn law_silent_cache_denies_nothing(name: Seq<char>, replies: Replies)
    requires
        forall|n: Seq<char>| #[trigger] (replies.exists)(n) is None,
    ensures
        search_result(candidates(name), search_from(candidates(name), 0), replies) is None,
{
    law_search_finds_the_first_marked_name(name, replies);
    lemma_none_marked(candidates(name), 0, replies);
}

/// Where nothing is marked, nothing is found.
proof fn lemma_none_marked(names: Seq<Seq<char>>, at: int, replies: Replies)
    requires
        0 <= at,
        forall|n: Seq<char>| #[trigger] (replies.exists)(n) is None,
    ensures
        first_marked(names, at, replies) is None,
    decreases names.len() - at,
{
    if at < names.len() {
        assert((replies.exists)(names[at]) is None);
        lemma_none_marked(names, at + 1, replies);
    }
}

/// How many dots a text has.
pub open spec fn dots(s: Seq<char>) -> nat
    decreases s.len(),
{
    if s.len() == 0 {
        0
    } else {
        dots(s.drop_last()) + (if s.last() == '.' {
            1nat
        } else {
            0
        })
    }
}

/// A marked name covers its subdomains: of any name below it that is not
/// escaped and not too deep, it is one of those looked up, behind as many as
/// there are labels below it. Where it is marked, the name below is denied, by
/// it or by a marked name closer to that.
pub proof fn law_marked_name_covers_its_subdomains(
    below: Seq<char>,
    parent: Seq<char>,
    replies: Replies,
)
    requires
        parent.len() > 0,
        !below.contains('\\'),
        !parent.contains('\\'),
        dots(below) + 2 <= 8,
        is_marked(replies, parent),
    ensures
        candidates(below.push('.') + parent).len() > dots(below) + 1,
        candidates(below.push('.') + parent)[dots(below) as int + 1] == parent,
        candidates(below.push('.') + parent).contains(parent),
        first_marked(candidates(below.push('.') + parent), 0, replies) is Some,
{
    let name = below.push('.') + parent;
    assert(!name.contains('\\')) by {
        if name.contains('\\') {
            let i = choose|i: int| 0 <= i < name.len() && name[i] == '\\';
            if i < below.len() {
                assert(below[i] == '\\');
            } else {
                assert(parent[i - below.len() - 1] == '\\');
            }
        }
    }
    lemma_parent_found(below, parent);
    let k = dots(below) as int;
    let all = seq![name] + parents(name);
    assert(all[k + 1] == parent);
    assert(candidates(name)[k + 1] == parent);
    lemma_marked_found(candidates(name), 0, k + 1, replies);
}

/// The parent of a name stands behind as many others as there are dots before
/// it.
proof fn lemma_parent_found(below: Seq<char>, parent: Seq<char>)
    requires
        parent.len() > 0,
    ensures
        parents(below.push('.') + parent).len() > dots(below),
        parents(below.push('.') + parent)[dots(below) as int] == parent,
        parents(below.push('.') + parent).len() == dots(below) + 1 + parents(parent).len(),
    decreases below.len(),
{
    let name = below.push('.') + parent;
    let at = text::position(name, '.');
    text::lemma_position(name, '.');
    assert(name[below.len() as int] == '.');
    assert(name.contains('.'));
    assert(at <= below.len());
    let rest = name.skip(at + 1);
    if at == below.len() {
        assert(rest =~= parent);
        assert(dots(below) == 0) by {
            assert forall|i: int| 0 <= i < below.len() implies below[i] != '.' by {
                assert(name[i] == below[i]);
            }
            lemma_no_dots(below);
        }
    } else {
        let tail = below.skip(at + 1);
        assert(rest =~= tail.push('.') + parent);
        lemma_parent_found(tail, parent);
        assert(below =~= below.take(at).push('.') + tail) by {
            assert(below[at] == name[at]);
        }
        assert forall|i: int| 0 <= i < at implies below.take(at)[i] != '.' by {
            assert(name[i] == below[i]);
        }
        lemma_no_dots(below.take(at));
        assert(below.take(at).push('.').drop_last() =~= below.take(at));
        lemma_dots_add(below.take(at).push('.'), tail);
        assert(dots(below) == 1 + dots(tail));
    }
}

/// A text without a dot has none.
proof fn lemma_no_dots(s: Seq<char>)
    requires
        forall|i: int| 0 <= i < s.len() ==> s[i] != '.',
    ensures
        dots(s) == 0,
    decreases s.len(),
{
    if s.len() > 0 {
        lemma_no_dots(s.drop_last());
    }
}

/// The dots of two texts add up.
proof fn lemma_dots_add(a: Seq<char>, b: Seq<char>)
    ensures
        dots(a + b) == dots(a) + dots(b),
    decreases b.len(),
{
    if b.len() == 0 {
        assert(a + b =~= a);
    } else {
        lemma_dots_add(a, b.drop_last());
        assert((a + b).drop_last() =~= a + b.drop_last());
    }
}

/// A marked name in the list is found, or one before it.
proof fn lemma_marked_found(names: Seq<Seq<char>>, at: int, k: int, replies: Replies)
    requires
        0 <= at <= k < names.len(),
        is_marked(replies, names[k]),
    ensures
        first_marked(names, at, replies) is Some,
    decreases k - at,
{
    if !is_marked(replies, names[at]) {
        lemma_marked_found(names, at + 1, k, replies);
    }
}

/// A name is a parent of another only from one of its labels on: the name
/// itself, or what follows one of its dots. `notchatgpt.com` is not below
/// `chatgpt.com`. And few names are looked up, however long the first is.
pub proof fn law_candidates_are_the_name_and_its_parents(name: Seq<char>, i: int)
    requires
        0 <= i < candidates(name).len(),
    ensures
        candidates(name).len() <= 8,
        candidates(name)[i] == name || exists|at: int| follows_dot(name, at, candidates(name)[i]),
{
    if i > 0 && !name.contains('\\') {
        lemma_parents_follow_dots(name, i - 1);
        assert((seq![name] + parents(name))[i] == parents(name)[i - 1]);
    }
}

/// A text stands behind a dot of another, up to its end.
pub open spec fn follows_dot(name: Seq<char>, at: int, rest: Seq<char>) -> bool {
    0 <= at < name.len() && name[at] == '.' && rest == name.skip(at + 1)
}

/// Each parent follows a dot.
proof fn lemma_parents_follow_dots(name: Seq<char>, i: int)
    requires
        0 <= i < parents(name).len(),
    ensures
        exists|at: int| follows_dot(name, at, parents(name)[i]),
    decreases name.len(),
{
    let at = text::position(name, '.');
    text::lemma_position(name, '.');
    let rest = name.skip(at + 1);
    if i == 0 {
        assert(follows_dot(name, at, parents(name)[0]));
    } else {
        lemma_parents_follow_dots(rest, i - 1);
        let parent = parents(rest)[i - 1];
        let inner = choose|inner: int| follows_dot(rest, inner, parent);
        assert(rest.skip(inner + 1) =~= name.skip(at + 1 + inner + 1));
        assert(follows_dot(name, at + 1 + inner, parents(name)[i]));
    }
}

/// A decision is not asked for twice: once remembered, it is recalled as it
/// was until its time is over, and not after.
pub proof fn law_decision_is_recalled(
    memory: Memory,
    name: Seq<char>,
    rule: Option<Seq<char>>,
    then: u128,
    ttl: u128,
    now: u128,
)
    ensures
        now < then + ttl && ttl > 0 ==> recalled(
            remembered(memory, name, rule, then),
            name,
            ttl,
            now,
        ) == Some(rule),
        now >= then + ttl || ttl == 0 ==> recalled(
            remembered(memory, name, rule, then),
            name,
            ttl,
            now,
        ) is None,
{
}

/// The memory stays bounded, whatever is remembered.
pub proof fn law_memory_is_bounded(
    memory: Memory,
    name: Seq<char>,
    rule: Option<Seq<char>>,
    now: u128,
)
    requires
        memory.dom().finite(),
        memory.len() <= 4096,
    ensures
        remembered(memory, name, rule, now).dom().finite(),
        remembered(memory, name, rule, now).len() <= 4096,
{
}

/// A memory with room keeps what it knows of other names when one is added,
/// and a full one forgets them all; of a name that was never decided on
/// nothing is known.
pub proof fn law_other_decisions_stay(
    memory: Memory,
    name: Seq<char>,
    rule: Option<Seq<char>>,
    then: u128,
    other: Seq<char>,
    ttl: u128,
    now: u128,
)
    requires
        other != name,
    ensures
        memory.len() < 4096 ==> recalled(remembered(memory, name, rule, then), other, ttl, now)
            == recalled(memory, other, ttl, now),
        memory.len() >= 4096 ==> recalled(
            remembered(memory, name, rule, then),
            other,
            ttl,
            now,
        ) is None,
        !memory.contains_key(other) ==> recalled(memory, other, ttl, now) is None,
        recalled(Map::empty(), other, ttl, now) is None,
{
}

/// The name itself is looked up first. One that was escaped is looked up whole
/// and not by parts, and the empty name not at all.
pub proof fn law_name_is_looked_up_first(name: Seq<char>)
    ensures
        name.len() > 0 ==> candidates(name).len() > 0 && candidates(name)[0] == name,
        name.contains('\\') ==> candidates(name) == seq![name],
        candidates(Seq::empty()) == Seq::<Seq<char>>::empty(),
{
}

/// No more names are looked up than a name has labels.
pub proof fn law_each_label_is_looked_up_once(below: Seq<char>, last: Seq<char>)
    requires
        last.len() > 0,
        !below.contains('\\'),
        !last.contains('\\'),
        !last.contains('.'),
    ensures
        candidates(last) == seq![last],
        candidates(below.push('.') + last).len() == (if dots(below) + 2 <= 8 {
            dots(below) + 2
        } else {
            8
        }),
{
    let name = below.push('.') + last;
    assert(!name.contains('\\')) by {
        if name.contains('\\') {
            let i = choose|i: int| 0 <= i < name.len() && name[i] == '\\';
            if i < below.len() {
                assert(below[i] == '\\');
            } else {
                assert(last[i - below.len() - 1] == '\\');
            }
        }
    }
    text::lemma_position(last, '.');
    assert(parents(last).len() == 0);
    assert(seq![last] + parents(last) =~= seq![last]);
    lemma_parent_found(below, last);
}

/// The key of a name is asked for before the list, and both about the name that
/// the search is at.
pub proof fn law_key_is_asked_for_before_the_list(
    question: Question,
    names: Seq<Seq<char>>,
    at: int,
    listed: bool,
)
    requires
        asks(question, names, Progress { at, listed }),
    ensures
        !listed ==> (question matches Question::Exists(name) && name@ == names[at]),
        listed ==> (question matches Question::Listed(name) && name@ == names[at]),
        search_from(names, at) matches Next::Ask(progress) ==> !progress.listed && progress.at
            == at,
{
}

/// A decision denies exactly where a marked name is behind it, and tells that
/// name; where the search goes on, nothing is decided yet.
pub proof fn law_decision_tells_its_reason(
    decision: Decision,
    rule: Option<Seq<char>>,
    outcome: Outcome,
    name: Seq<char>,
    found: Next,
)
    requires
        decides(decision, rule),
        comes_to(outcome, name, found),
    ensures
        decision.verdict == Verdict::Deny <==> rule is Some,
        decision.verdict == Verdict::Resolve <==> rule is None,
        text::option_view(decision.matched) == rule,
        outcome is Decided <==> found is Done,
        found matches Next::Done(Some(marked)) ==> (outcome matches Outcome::Decided(d)
            && d.verdict == Verdict::Deny && text::option_view(d.matched) == Some(marked)),
        found matches Next::Done(None) ==> (outcome matches Outcome::Decided(d) && d.verdict
            == Verdict::Resolve && d.matched is None),
        found matches Next::Ask(progress) ==> (outcome matches Outcome::Ask(lookup)
            && lookup.name() == name && lookup.progress() == progress),
{
}

} // verus!
