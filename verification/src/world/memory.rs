use vstd::prelude::*;

use std::collections::hash_map::DefaultHasher;
use std::hash::{Hash, Hasher};
use vstd::std_specs::hash::DefaultHasherAdditionalSpecFns;

use crate::collections::{MapKey, SortedMap};
use crate::domain::{Observation, Pos, Role};
use crate::rules::constants::{MAX_NEWS_RECORDS, MAX_NEWS_TEXT_CHARS, MAX_REMEMBERED_ENEMIES, NO_HEALTH};
use crate::rules::time::{day_number, spec_day_number};
use crate::text::{str_eq, str_lt, text_lt};

verus! {

/// What is known of an enemy's fate.
#[derive(Clone, Copy, Debug, PartialEq, Eq, Structural)]
pub enum EnemyStatus {
    ObservedAlive,
    ObservedUnknown,
    Unobserved,
    ConfirmedDead,
    Removed,
}

/// An enemy as last seen.
#[derive(Clone, Debug)]
pub struct RememberedEnemy {
    pub pos: Pos,
    pub kind: String,
    pub last_seen_round: i32,
    pub status: EnemyStatus,
}

/// A news item of one day and channel, by its hash and an excerpt.
#[derive(Clone, Debug)]
pub struct NewsRecord {
    pub day: i32,
    pub channel: String,
    pub hash: u64,
    pub excerpt: String,
    pub truncated: bool,
}

/// Enemies seen so far, by id, and the news of the recent days in
/// increasing order.
#[derive(Clone, Debug)]
pub struct WorldMemory {
    pub enemies: SortedMap<i64, RememberedEnemy>,
    pub news: Vec<NewsRecord>,
}

impl Default for WorldMemory {
    fn default() -> (r: Self)
        ensures
            r.well_formed(),
            r.enemies.view() == Map::<i64, RememberedEnemy>::empty(),
            r.news@ == Seq::<NewsRecord>::empty(),
    {
        WorldMemory { enemies: SortedMap::new(), news: Vec::new() }
    }
}

/// Stations and walls are visible to all, so their memory is dropped.
pub open spec fn spec_globally_visible(kind: Seq<char>) -> bool {
    kind == "station"@ || kind == "wall"@
}

pub fn globally_visible(kind: &str) -> (r: bool)
    ensures
        r == spec_globally_visible(kind@),
{
    str_eq(kind, "station") || str_eq(kind, "wall")
}

/// The mathematical content of a remembered enemy.
pub open spec fn enemy_view(e: RememberedEnemy) -> (Pos, Seq<char>, i32, EnemyStatus) {
    (e.pos, e.kind@, e.last_seen_round, e.status)
}

/// A new frame ages what was seen before: globally visible kinds are
/// removed, enemies seen last time become unobserved.
pub open spec fn aged_status(e: RememberedEnemy) -> EnemyStatus {
    if spec_globally_visible(e.kind@) {
        EnemyStatus::Removed
    } else if e.status == EnemyStatus::ObservedAlive || e.status == EnemyStatus::ObservedUnknown {
        EnemyStatus::Unobserved
    } else {
        e.status
    }
}

/// The status of an enemy seen now.
pub open spec fn seen_status(role: Role) -> EnemyStatus {
    match role.health {
        Some(hp) => if hp <= NO_HEALTH { EnemyStatus::ConfirmedDead } else { EnemyStatus::ObservedAlive },
        None => EnemyStatus::ObservedUnknown,
    }
}

/// Remembered enemies after a frame, before trimming: the aged memory,
/// overwritten by every enemy seen now (a later listing wins).
pub open spec fn observed_enemies(old: Map<i64, RememberedEnemy>, round: i32, seen: Seq<Role>) -> Map<i64, (Pos, Seq<char>, i32, EnemyStatus)>
    decreases seen.len(),
{
    if seen.len() == 0 {
        old.map_values(|e: RememberedEnemy| (e.pos, e.kind@, e.last_seen_round, aged_status(e)))
    } else {
        let r = seen.last();
        observed_enemies(old, round, seen.drop_last()).insert(r.id, (r.pos, r.role_type@, round, seen_status(r)))
    }
}

/// `(round, id)` order: which remembered enemy is older.
pub open spec fn older(a: (Pos, Seq<char>, i32, EnemyStatus), a_id: i64, b: (Pos, Seq<char>, i32, EnemyStatus), b_id: i64) -> bool {
    a.2 < b.2 || (a.2 == b.2 && a_id < b_id)
}

/// `kept` is `all` less its oldest entries, down to the limit.
pub open spec fn trimmed_to(all: Map<i64, (Pos, Seq<char>, i32, EnemyStatus)>, kept: Map<i64, (Pos, Seq<char>, i32, EnemyStatus)>, limit: nat) -> bool {
    &&& kept.submap_of(all)
    &&& kept.dom().len() == if all.dom().len() <= limit { all.dom().len() } else { limit }
    &&& forall|r: i64, k: i64| #[trigger] all.contains_key(r) && !kept.contains_key(r) && #[trigger] kept.contains_key(k)
        ==> older(all[r], r, kept[k], k)
}

/// News order: by day, channel, hash, excerpt, then truncation.
pub open spec fn news_lt(a: NewsRecord, b: NewsRecord) -> bool {
    ||| a.day < b.day
    ||| a.day == b.day && text_lt(a.channel@, b.channel@)
    ||| a.day == b.day && a.channel@ == b.channel@ && a.hash < b.hash
    ||| a.day == b.day && a.channel@ == b.channel@ && a.hash == b.hash && text_lt(a.excerpt@, b.excerpt@)
    ||| a.day == b.day && a.channel@ == b.channel@ && a.hash == b.hash && a.excerpt@ == b.excerpt@ && !a.truncated && b.truncated
}

pub open spec fn news_view(n: NewsRecord) -> (i32, Seq<char>, u64, Seq<char>, bool) {
    (n.day, n.channel@, n.hash, n.excerpt@, n.truncated)
}

pub open spec fn news_sorted(s: Seq<NewsRecord>) -> bool {
    forall|i: int, j: int| 0 <= i < j < s.len() ==> news_lt(#[trigger] s[i], #[trigger] s[j])
}

/// The news items a sequence holds, by content.
pub open spec fn news_contents(s: Seq<NewsRecord>) -> Set<(i32, Seq<char>, u64, Seq<char>, bool)> {
    Set::new(|v: (i32, Seq<char>, u64, Seq<char>, bool)| exists|i: int| 0 <= i < s.len() && news_view(#[trigger] s[i]) == v)
}

pub proof fn lemma_text_lt_irreflexive(a: Seq<char>)
    ensures
        !text_lt(a, a),
    decreases a.len(),
{
    if a.len() > 0 {
        lemma_text_lt_irreflexive(a.drop_first());
    }
}

pub proof fn lemma_text_lt_transitive(a: Seq<char>, b: Seq<char>, c: Seq<char>)
    requires
        text_lt(a, b),
        text_lt(b, c),
    ensures
        text_lt(a, c),
    decreases a.len(),
{
    if a.len() > 0 && b.len() > 0 && c.len() > 0 && a[0] == b[0] && b[0] == c[0] {
        lemma_text_lt_transitive(a.drop_first(), b.drop_first(), c.drop_first());
    }
}

pub proof fn lemma_text_lt_total(a: Seq<char>, b: Seq<char>)
    ensures
        a == b || text_lt(a, b) || text_lt(b, a),
    decreases a.len(),
{
    if a.len() > 0 && b.len() > 0 {
        if a[0] == b[0] {
            lemma_text_lt_total(a.drop_first(), b.drop_first());
            if a.drop_first() == b.drop_first() {
                assert(a =~= seq![a[0]] + a.drop_first());
                assert(b =~= seq![b[0]] + b.drop_first());
            }
        } else {
            assert((a[0] as int) != (b[0] as int));
        }
    } else if a.len() == 0 && b.len() == 0 {
        assert(a =~= b);
    }
}

pub proof fn lemma_news_order(a: NewsRecord, b: NewsRecord, c: NewsRecord)
    ensures
        !news_lt(a, a),
        news_lt(a, b) && news_lt(b, c) ==> news_lt(a, c),
        news_view(a) == news_view(b) || news_lt(a, b) || news_lt(b, a),
        news_lt(a, b) ==> news_view(a) != news_view(b),
{
    lemma_text_lt_irreflexive(a.channel@);
    lemma_text_lt_irreflexive(a.excerpt@);
    lemma_text_lt_irreflexive(b.channel@);
    lemma_text_lt_irreflexive(b.excerpt@);
    lemma_text_lt_total(a.channel@, b.channel@);
    lemma_text_lt_total(a.excerpt@, b.excerpt@);
    if text_lt(a.channel@, b.channel@) && text_lt(b.channel@, c.channel@) {
        lemma_text_lt_transitive(a.channel@, b.channel@, c.channel@);
    }
    if text_lt(a.excerpt@, b.excerpt@) && text_lt(b.excerpt@, c.excerpt@) {
        lemma_text_lt_transitive(a.excerpt@, b.excerpt@, c.excerpt@);
    }
    if text_lt(a.channel@, b.channel@) && text_lt(b.channel@, a.channel@) {
        lemma_text_lt_transitive(a.channel@, b.channel@, a.channel@);
    }
    if text_lt(a.excerpt@, b.excerpt@) && text_lt(b.excerpt@, a.excerpt@) {
        lemma_text_lt_transitive(a.excerpt@, b.excerpt@, a.excerpt@);
    }
}

fn news_less(a: &NewsRecord, b: &NewsRecord) -> (r: bool)
    ensures
        r == news_lt(*a, *b),
{
    proof {
        lemma_text_lt_irreflexive(a.channel@);
        lemma_text_lt_irreflexive(a.excerpt@);
    }
    if a.day != b.day {
        return a.day < b.day;
    }
    if !str_eq(a.channel.as_str(), b.channel.as_str()) {
        return str_lt(a.channel.as_str(), b.channel.as_str());
    }
    if a.hash != b.hash {
        return a.hash < b.hash;
    }
    if !str_eq(a.excerpt.as_str(), b.excerpt.as_str()) {
        return str_lt(a.excerpt.as_str(), b.excerpt.as_str());
    }
    !a.truncated && b.truncated
}

fn news_same(a: &NewsRecord, b: &NewsRecord) -> (r: bool)
    ensures
        r == (news_view(*a) == news_view(*b)),
{
    a.day == b.day && str_eq(a.channel.as_str(), b.channel.as_str()) && a.hash == b.hash
        && str_eq(a.excerpt.as_str(), b.excerpt.as_str()) && a.truncated == b.truncated
}

/// Adds a news item in order, unless an equal one is held.
fn insert_news(news: &mut Vec<NewsRecord>, record: NewsRecord)
    requires
        news_sorted(old(news)@),
    ensures
        news_sorted(final(news)@),
        news_contents(final(news)@) == news_contents(old(news)@).insert(news_view(record)),
{
    let ghost start = news@;
    let mut k: usize = 0;
    while k < news.len() && news_less(&news[k], &record)
        invariant
            news@ == start,
            news_sorted(start),
            k <= start.len(),
            forall|j: int| 0 <= j < k ==> news_lt(#[trigger] start[j], record),
        decreases start.len() - k,
    {
        k = k + 1;
    }
    if k < news.len() && news_same(&news[k], &record) {
        proof {
            assert(news_contents(news@) =~= news_contents(start).insert(news_view(record)));
        }
        return;
    }
    proof {
        if k < start.len() {
            lemma_news_order(start[k as int], record, record);
            assert(news_lt(record, start[k as int]));
        }
    }
    news.insert(k, record);
    proof {
        let s = news@;
        assert(s == start.insert(k as int, record));
        assert forall|i: int, j: int| 0 <= i < j < s.len() implies news_lt(#[trigger] s[i], #[trigger] s[j]) by {
            if j < k {
                assert(s[i] == start[i] && s[j] == start[j]);
            } else if j == k {
                assert(s[i] == start[i]);
            } else if i < k {
                assert(s[i] == start[i] && s[j] == start[j - 1]);
                lemma_news_order(start[i], start[k as int], start[j - 1]);
                if j - 1 > k {
                    assert(news_lt(start[k as int], start[j - 1]));
                }
                lemma_news_order(start[i], record, start[k as int]);
                lemma_news_order(record, start[k as int], start[j - 1]);
            } else if i == k {
                assert(s[j] == start[j - 1]);
                if j - 1 > k {
                    assert(news_lt(start[k as int], start[j - 1]));
                    lemma_news_order(record, start[k as int], start[j - 1]);
                }
            } else {
                assert(s[i] == start[i - 1] && s[j] == start[j - 1]);
            }
        }
        assert forall|v| news_contents(s).contains(v) <==> news_contents(start).insert(news_view(record)).contains(v) by {
            if news_contents(s).contains(v) {
                let i = choose|i: int| 0 <= i < s.len() && news_view(#[trigger] s[i]) == v;
                if i < k {
                    assert(s[i] == start[i]);
                } else if i > k {
                    assert(s[i] == start[i - 1]);
                }
            }
            if news_contents(start).contains(v) {
                let i = choose|i: int| 0 <= i < start.len() && news_view(#[trigger] start[i]) == v;
                if i < k {
                    assert(s[i] == start[i]);
                } else {
                    assert(s[i + 1] == start[i]);
                }
            }
            if v == news_view(record) {
                assert(s[k as int] == record);
            }
        }
        assert(news_contents(s) =~= news_contents(start).insert(news_view(record)));
    }
}

/// What feeding a text to a hasher through `str`'s `Hash` implementation
/// writes, after what the hasher held: a function of the two alone.
pub uninterp spec fn fed_text(h: Seq<Seq<u8>>, content: Seq<char>) -> Seq<Seq<u8>>;

/// The hash of a text: a fresh `DefaultHasher` (whose keys are fixed) fed
/// the text, then finished.
pub open spec fn text_hash(content: Seq<char>) -> u64 {
    DefaultHasher::spec_finish(fed_text(Seq::empty(), content))
}

/// Feeds a text to a hasher through `str`'s `Hash` implementation
/// (`Hash::hash`). The bytes it writes are not spelled out here; they are
/// named `fed_text` of what the hasher held and the text.
#[verifier::external_body]
fn feed_text(hasher: &mut DefaultHasher, content: &str)
    ensures
        final(hasher)@ == fed_text(old(hasher)@, content@),
{
    content.hash(hasher);
}

/// A news item: its day and channel, the hash of the full text, the first
/// characters of it, and whether it was cut.
pub open spec fn news_of(day: i32, channel: Seq<char>, content: Seq<char>, hash: u64, r: NewsRecord) -> bool {
    &&& r.day == day
    &&& r.channel@ == channel
    &&& r.hash == hash
    &&& hash == text_hash(content)
    &&& r.excerpt@ == (if content.len() > MAX_NEWS_TEXT_CHARS { content.subrange(0, MAX_NEWS_TEXT_CHARS as int) } else { content })
    &&& r.truncated == (content.len() > MAX_NEWS_TEXT_CHARS)
}

fn news_record(day: i32, channel: &str, content: &str) -> (r: NewsRecord)
    ensures
        news_of(day, channel@, content@, r.hash, r),
{
    let n: usize = content.unicode_len();
    let end = if n > MAX_NEWS_TEXT_CHARS { MAX_NEWS_TEXT_CHARS } else { n };
    let excerpt = String::from_str(content.substring_char(0, end));
    proof {
        if n <= MAX_NEWS_TEXT_CHARS {
            assert(content@.subrange(0, n as int) =~= content@);
        }
    }
    let mut hasher = DefaultHasher::new();
    feed_text(&mut hasher, content);
    let hash = hasher.finish();
    NewsRecord {
        day,
        channel: String::from_str(channel),
        hash,
        excerpt,
        truncated: n > MAX_NEWS_TEXT_CHARS,
    }
}

impl WorldMemory {
    pub open spec fn well_formed(&self) -> bool {
        &&& self.enemies.well_formed()
        &&& news_sorted(self.news@)
    }

    /// The remembered enemies by content.
    pub open spec fn enemies_view(&self) -> Map<i64, (Pos, Seq<char>, i32, EnemyStatus)> {
        self.enemies.view().map_values(|e: RememberedEnemy| enemy_view(e))
    }

    fn age(&mut self)
        requires
            old(self).well_formed(),
        ensures
            final(self).well_formed(),
            final(self).news == old(self).news,
            final(self).enemies_view() == old(self).enemies.view().map_values(|e: RememberedEnemy|
                (e.pos, e.kind@, e.last_seen_round, aged_status(e))),
    {
        proof { self.enemies.lemma_view(); }
        let ghost start = self.enemies.view();
        let n: usize = self.enemies.len();
        let mut ids: Vec<i64> = Vec::new();
        let mut i: usize = 0;
        while i < n
            invariant
                self.enemies.well_formed(),
                n == self.enemies.entries().len(),
                i <= n,
                ids@.len() == i,
                forall|j: int| 0 <= j < i ==> ids@[j] == #[trigger] self.enemies.entries()[j].0,
            decreases n - i,
        {
            let (id, _) = self.enemies.entry_at(i);
            ids.push(*id);
            i = i + 1;
        }
        proof {
            self.enemies.lemma_view();
            assert forall|a: int, b: int| 0 <= a < b < ids@.len() implies ids@[a] != ids@[b] by {
                assert(self.enemies.entries()[a].0.rank() < self.enemies.entries()[b].0.rank());
            }
            assert forall|id: i64| start.contains_key(id) <==> ids@.contains(id) by {
                if start.contains_key(id) {
                    let j = choose|j: int| 0 <= j < self.enemies.entries().len() && self.enemies.entries()[j].0 == id;
                    assert(ids@[j] == id);
                }
                if ids@.contains(id) {
                    let j = choose|j: int| 0 <= j < ids@.len() && ids@[j] == id;
                    assert(self.enemies.entries()[j].0 == id);
                }
            }
        }
        let ghost target = start.map_values(|e: RememberedEnemy| (e.pos, e.kind@, e.last_seen_round, aged_status(e)));
        let mut k: usize = 0;
        while k < ids.len()
            invariant
                self.enemies.well_formed(),
                self.news == old(self).news,
                news_sorted(self.news@),
                k <= ids@.len(),
                forall|a: int, b: int| 0 <= a < b < ids@.len() ==> ids@[a] != ids@[b],
                forall|id: i64| start.contains_key(id) <==> ids@.contains(id),
                self.enemies.view().dom() == start.dom(),
                forall|id: i64| #[trigger] self.enemies.view().contains_key(id) ==> {
                    let e = self.enemies.view()[id];
                    let s = start[id];
                    &&& e.pos == s.pos && e.kind@ == s.kind@ && e.last_seen_round == s.last_seen_round
                    &&& e.status == if (exists|j: int| 0 <= j < k && ids@[j] == id) { aged_status(s) } else { s.status }
                },
            decreases ids@.len() - k,
        {
            let id = ids[k];
            let ghost before = self.enemies.view();
            proof { assert(ids@.contains(id)); }
            match self.enemies.remove(&id) {
                Some(mut e) => {
                    let status = if globally_visible(e.kind.as_str()) {
                        EnemyStatus::Removed
                    } else if e.status == EnemyStatus::ObservedAlive || e.status == EnemyStatus::ObservedUnknown {
                        EnemyStatus::Unobserved
                    } else {
                        e.status
                    };
                    e.status = status;
                    self.enemies.insert(id, e);
                },
                None => {},
            }
            proof {
                assert(self.enemies.view().dom() =~= start.dom());
                assert forall|x: i64| #[trigger] self.enemies.view().contains_key(x) implies {
                    let e = self.enemies.view()[x];
                    let s = start[x];
                    &&& e.pos == s.pos && e.kind@ == s.kind@ && e.last_seen_round == s.last_seen_round
                    &&& e.status == if (exists|j: int| 0 <= j < k + 1 && ids@[j] == x) { aged_status(s) } else { s.status }
                } by {
                    if x == id {
                        assert(ids@[k as int] == x);
                        if exists|j: int| 0 <= j < k && ids@[j] == x {
                            let j = choose|j: int| 0 <= j < k && ids@[j] == x;
                            assert(ids@[j] != ids@[k as int]);
                        }
                    } else {
                        assert(self.enemies.view()[x] == before[x]);
                        if exists|j: int| 0 <= j < k + 1 && ids@[j] == x {
                            let j = choose|j: int| 0 <= j < k + 1 && ids@[j] == x;
                            assert(j != k);
                        }
                    }
                }
            }
            k = k + 1;
        }
        proof {
            assert forall|x: i64| self.enemies_view().contains_key(x) implies self.enemies_view()[x] == target[x] by {
                let j = choose|j: int| 0 <= j < ids@.len() && ids@[j] == x;
                assert(exists|j2: int| 0 <= j2 < k && ids@[j2] == x);
            }
            assert(self.enemies_view() =~= target);
        }
    }

    fn observe_enemies(&mut self, round: i32, roles: &Vec<Role>)
        requires
            old(self).well_formed(),
        ensures
            final(self).well_formed(),
            final(self).news == old(self).news,
            forall|id: i64| #![trigger final(self).enemies_view().contains_key(id)] final(self).enemies_view().contains_key(id) <==>
                old(self).enemies_view().contains_key(id) || crate::domain::has_role(roles@, id),
            final(self).enemies_view() == seen_over(old(self).enemies_view(), round, roles@),
    {
        let mut i: usize = 0;
        while i < roles.len()
            invariant
                self.enemies.well_formed(),
                self.news == old(self).news,
                news_sorted(self.news@),
                i <= roles@.len(),
                self.enemies_view() == seen_over(old(self).enemies_view(), round, roles@.subrange(0, i as int)),
            decreases roles@.len() - i,
        {
            let role = &roles[i];
            let status = match role.health {
                Some(hp) => if hp <= NO_HEALTH { EnemyStatus::ConfirmedDead } else { EnemyStatus::ObservedAlive },
                None => EnemyStatus::ObservedUnknown,
            };
            let ghost before = self.enemies_view();
            self.enemies.insert(role.id, RememberedEnemy {
                pos: role.pos,
                kind: role.role_type.clone(),
                last_seen_round: round,
                status,
            });
            proof {
                assert(roles@.subrange(0, i + 1).drop_last() =~= roles@.subrange(0, i as int));
                assert(self.enemies_view() =~= before.insert(role.id, (role.pos, role.role_type@, round, seen_status(*role))));
            }
            i = i + 1;
        }
        proof {
            assert(roles@.subrange(0, roles@.len() as int) =~= roles@);
            lemma_seen_over_dom(old(self).enemies_view(), round, roles@);
        }
    }

    /// Drops the oldest remembered enemies, by round last seen then id,
    /// down to the limit.
    fn trim_enemies(&mut self)
        requires
            old(self).well_formed(),
        ensures
            final(self).well_formed(),
            final(self).news == old(self).news,
            trimmed_to(old(self).enemies_view(), final(self).enemies_view(), MAX_REMEMBERED_ENEMIES as nat),
    {
        proof {
            self.enemies.lemma_view();
            assert(self.enemies_view().dom() =~= self.enemies.view().dom());
        }
        let ghost all = self.enemies_view();
        while self.enemies.len() > MAX_REMEMBERED_ENEMIES
            invariant
                self.enemies.well_formed(),
                self.news == old(self).news,
                news_sorted(self.news@),
                all == old(self).enemies_view(),
                self.enemies_view().submap_of(all),
                self.enemies_view().dom().finite(),
                all.dom().finite(),
                all.dom().len() > MAX_REMEMBERED_ENEMIES ==> self.enemies_view().dom().len() >= MAX_REMEMBERED_ENEMIES,
                all.dom().len() <= MAX_REMEMBERED_ENEMIES ==> self.enemies_view() == all,
                forall|r: i64, k: i64| #[trigger] all.contains_key(r) && !self.enemies_view().contains_key(r)
                    && #[trigger] self.enemies_view().contains_key(k) ==> older(all[r], r, self.enemies_view()[k], k),
                self.enemies_view().dom().len() == self.enemies.entries().len(),
            decreases self.enemies.entries().len(),
        {
            proof { self.enemies.lemma_view(); }
            let n: usize = self.enemies.len();
            let (first_id, first) = self.enemies.entry_at(0);
            let mut oldest: i64 = *first_id;
            let mut oldest_round: i32 = first.last_seen_round;
            let mut j: usize = 1;
            while j < n
                invariant
                    self.enemies.well_formed(),
                    n == self.enemies.entries().len(),
                    1 <= j <= n,
                    self.enemies.view().contains_key(oldest),
                    self.enemies.view()[oldest].last_seen_round == oldest_round,
                    forall|q: int| 0 <= q < j ==> {
                        let e = #[trigger] self.enemies.entries()[q];
                        e.0 == oldest || oldest_round < e.1.last_seen_round
                            || (oldest_round == e.1.last_seen_round && oldest < e.0)
                    },
                decreases n - j,
            {
                proof { self.enemies.lemma_view(); }
                let (id, e) = self.enemies.entry_at(j);
                if e.last_seen_round < oldest_round || (e.last_seen_round == oldest_round && *id < oldest) {
                    proof {
                        assert(self.enemies.view().contains_key(self.enemies.entries()[j as int].0));
                    }
                    oldest = *id;
                    oldest_round = e.last_seen_round;
                }
                j = j + 1;
            }
            let ghost before = self.enemies_view();
            proof {
                self.enemies.lemma_view();
                assert forall|k: i64| #[trigger] before.contains_key(k) && k != oldest implies older(before[oldest], oldest, before[k], k) by {
                    let q = choose|q: int| 0 <= q < self.enemies.entries().len() && self.enemies.entries()[q].0 == k;
                    assert(self.enemies.view()[k] == self.enemies.entries()[q].1);
                }
            }
            self.enemies.remove(&oldest);
            proof {
                self.enemies.lemma_view();
                assert(self.enemies_view() =~= before.remove(oldest));
                assert forall|r: i64, k: i64| #[trigger] all.contains_key(r) && !self.enemies_view().contains_key(r)
                    && #[trigger] self.enemies_view().contains_key(k) implies older(all[r], r, self.enemies_view()[k], k) by {
                    if r == oldest {
                        assert(before.contains_key(k) && k != oldest);
                        assert(all[r] == before[oldest]);
                        assert(self.enemies_view()[k] == before[k]);
                    } else {
                        assert(before.contains_key(k));
                        assert(!before.contains_key(r));
                    }
                }
                assert(before.dom().remove(oldest) == self.enemies_view().dom());
            }
        }
        proof {
            self.enemies.lemma_view();
            if all.dom().len() > MAX_REMEMBERED_ENEMIES {
                assert(self.enemies_view().dom().len() == MAX_REMEMBERED_ENEMIES);
            } else {
                assert(self.enemies_view() == all);
            }
        }
    }

    /// Drops the first news items in order beyond the limit.
    fn trim_news(&mut self)
        requires
            old(self).well_formed(),
        ensures
            final(self).well_formed(),
            final(self).enemies == old(self).enemies,
            final(self).news@ == if old(self).news@.len() > MAX_NEWS_RECORDS {
                old(self).news@.subrange(old(self).news@.len() - MAX_NEWS_RECORDS, old(self).news@.len() as int)
            } else {
                old(self).news@
            },
    {
        if self.news.len() > MAX_NEWS_RECORDS {
            let excess = self.news.len() - MAX_NEWS_RECORDS;
            let tail = self.news.split_off(excess);
            self.news = tail;
            proof {
                let s = self.news@;
                assert forall|i: int, j: int| 0 <= i < j < s.len() implies news_lt(#[trigger] s[i], #[trigger] s[j]) by {
                    assert(s[i] == old(self).news@[i + excess] && s[j] == old(self).news@[j + excess]);
                }
            }
        }
    }

    /// Takes in a frame: the memory ages, the enemies seen now are
    /// remembered as seen, the day's news are kept, and both are trimmed to
    /// their limits, oldest first.
    pub fn observe(&mut self, observation: &Observation)
        requires
            old(self).well_formed(),
        ensures
            final(self).well_formed(),
            trimmed_to(seen_over(old(self).enemies.view().map_values(|e: RememberedEnemy|
                (e.pos, e.kind@, e.last_seen_round, aged_status(e))), observation.round_no,
                crate::world::state::enemy_roles(*observation)), final(self).enemies_view(), MAX_REMEMBERED_ENEMIES as nat),
            exists|all: Seq<NewsRecord>| {
                &&& news_sorted(all)
                &&& news_contents(all) == news_contents(old(self).news@).union(todays_news(*observation, all))
                &&& news_present(*observation, all)
                &&& final(self).news@ == if all.len() > MAX_NEWS_RECORDS {
                    all.subrange(all.len() - MAX_NEWS_RECORDS, all.len() as int)
                } else {
                    all
                }
            },
    {
        self.age();
        let empty: Vec<Role> = Vec::new();
        let roles = match &observation.team_enemy {
            Some(t) => &t.roles,
            None => &empty,
        };
        assert(roles@ == crate::world::state::enemy_roles(*observation));
        self.observe_enemies(observation.round_no, roles);
        let ghost before_news = self.news@;
        self.observe_news(observation);
        let ghost all = self.news@;
        self.trim_enemies();
        self.trim_news();
        assert(news_sorted(all) && news_contents(all) == news_contents(before_news).union(todays_news(*observation, all))
            && news_present(*observation, all));
    }

    fn observe_news(&mut self, observation: &Observation)
        requires
            old(self).well_formed(),
        ensures
            final(self).well_formed(),
            final(self).enemies == old(self).enemies,
            news_contents(final(self).news@) == news_contents(old(self).news@).union(todays_news(*observation, final(self).news@)),
            news_present(*observation, final(self).news@),
    {
        let day = match day_number(observation.round_no) {
            Some(d) => d,
            None => {
                assert(news_contents(self.news@) =~= news_contents(self.news@).union(todays_news(*observation, self.news@)));
                return;
            },
        };
        proof {
            assert(day == spec_day_number(observation.round_no as int)->0);
        }
        let ghost mut official_record: Option<NewsRecord> = None;
        let ghost mut folk_record: Option<NewsRecord> = None;
        let ghost start = self.news@;
        let official = observation.world_news.official_news.as_str();
        let folk = observation.world_news.folk_legends.as_str();
        let mut added: Ghost<Set<(i32, Seq<char>, u64, Seq<char>, bool)>> = Ghost(Set::empty());
        if official.unicode_len() > 0 {
            let record = news_record(day, "official", official);
            proof {
                added@ = added@.insert(news_view(record));
                official_record = Some(record);
            }
            insert_news(&mut self.news, record);
        }
        if folk.unicode_len() > 0 {
            let record = news_record(day, "folk", folk);
            proof {
                added@ = added@.insert(news_view(record));
                folk_record = Some(record);
            }
            insert_news(&mut self.news, record);
        }
        proof {
            assert(news_contents(self.news@) =~= news_contents(start).union(added@));
            assert forall|v| added@.contains(v) implies todays_news(*observation, self.news@).contains(v) by {
                assert(news_contents(self.news@).contains(v));
                let i = choose|i: int| 0 <= i < self.news@.len() && news_view(#[trigger] self.news@[i]) == v;
            }
            assert forall|v| todays_news(*observation, self.news@).contains(v) implies news_contents(self.news@).contains(v) by {
            }
            assert(news_contents(self.news@) =~= news_contents(start).union(todays_news(*observation, self.news@)));
            if official@.len() > 0 {
                let r = official_record->0;
                assert(news_contents(self.news@).contains(news_view(r)));
                let i = choose|i: int| 0 <= i < self.news@.len() && news_view(#[trigger] self.news@[i]) == news_view(r);
                assert(news_of(day, "official"@, official@, self.news@[i].hash, self.news@[i]));
            }
            if folk@.len() > 0 {
                let r = folk_record->0;
                assert(news_contents(self.news@).contains(news_view(r)));
                let i = choose|i: int| 0 <= i < self.news@.len() && news_view(#[trigger] self.news@[i]) == news_view(r);
                assert(news_of(day, "folk"@, folk@, self.news@[i].hash, self.news@[i]));
            }
        }
    }
}

/// The day's official news and folk legend, when there is a day and the
/// text is not empty, are held.
pub open spec fn news_present(o: Observation, news: Seq<NewsRecord>) -> bool {
    match spec_day_number(o.round_no as int) {
        Some(d) => {
            &&& o.world_news.official_news@.len() > 0 ==> exists|i: int| 0 <= i < news.len()
                && news_of(d as i32, "official"@, o.world_news.official_news@, news[i].hash, #[trigger] news[i])
            &&& o.world_news.folk_legends@.len() > 0 ==> exists|i: int| 0 <= i < news.len()
                && news_of(d as i32, "folk"@, o.world_news.folk_legends@, news[i].hash, #[trigger] news[i])
        },
        None => true,
    }
}

/// The remembered enemies after the roles seen now overwrite them in
/// order.
pub open spec fn seen_over(m: Map<i64, (Pos, Seq<char>, i32, EnemyStatus)>, round: i32, seen: Seq<Role>) -> Map<i64, (Pos, Seq<char>, i32, EnemyStatus)>
    decreases seen.len(),
{
    if seen.len() == 0 {
        m
    } else {
        let r = seen.last();
        seen_over(m, round, seen.drop_last()).insert(r.id, (r.pos, r.role_type@, round, seen_status(r)))
    }
}

proof fn lemma_seen_over_dom(m: Map<i64, (Pos, Seq<char>, i32, EnemyStatus)>, round: i32, seen: Seq<Role>)
    ensures
        forall|id: i64| #[trigger] seen_over(m, round, seen).contains_key(id) <==> m.contains_key(id) || crate::domain::has_role(seen, id),
    decreases seen.len(),
{
    if seen.len() > 0 {
        let rest = seen.drop_last();
        lemma_seen_over_dom(m, round, rest);
        assert forall|id: i64| #[trigger] seen_over(m, round, seen).contains_key(id) <==> m.contains_key(id) || crate::domain::has_role(seen, id) by {
            assert(seen_over(m, round, rest).contains_key(id) <==> m.contains_key(id) || crate::domain::has_role(rest, id));
            if crate::domain::has_role(seen, id) && id != seen.last().id {
                let i = choose|i: int| 0 <= i < seen.len() && (#[trigger] seen[i]).id == id;
                assert(i < seen.len() - 1);
                assert(rest[i] == seen[i]);
                assert(crate::domain::has_role(rest, id));
            }
            if crate::domain::has_role(rest, id) {
                let i = choose|i: int| 0 <= i < rest.len() && (#[trigger] rest[i]).id == id;
                assert(seen[i] == rest[i]);
                assert(crate::domain::has_role(seen, id));
            }
            if id == seen.last().id {
                assert(seen[seen.len() - 1].id == id);
                assert(crate::domain::has_role(seen, id));
            }
        }
    }
}

/// The news items of the frame's day that `news` holds: the official news
/// and the folk legends, when the round is in the match and the text is
/// not empty. Their hash is not fixed here, so each is the held item of
/// that day, channel and text.
pub open spec fn todays_news(o: Observation, news: Seq<NewsRecord>) -> Set<(i32, Seq<char>, u64, Seq<char>, bool)> {
    Set::new(|v: (i32, Seq<char>, u64, Seq<char>, bool)| exists|i: int| 0 <= i < news.len() && news_view(#[trigger] news[i]) == v && {
        let r = news[i];
        &&& spec_day_number(o.round_no as int) == Some(r.day as int)
        &&& (o.world_news.official_news@.len() > 0 && news_of(r.day, "official"@, o.world_news.official_news@, r.hash, r))
            || (o.world_news.folk_legends@.len() > 0 && news_of(r.day, "folk"@, o.world_news.folk_legends@, r.hash, r))
    })
}

} // verus!
