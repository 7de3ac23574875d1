//! The keyspace: text values under text keys, each with an optional deadline,
//! read through lazy expiration.
use vstd::prelude::*;
use crate::text::{digit_char, format_i64, i64_of_text, int_text, lemma_single_digit, parse_i64};

verus! {

/// What a key holds: its value and, when it has one, the clock reading (in
/// milliseconds) from which it counts as gone.
pub type Stored = (Seq<char>, Option<u64>);

pub type Keyspace = Map<Seq<char>, Stored>;

/// Whether an entry is still visible at clock reading `now`.
pub open spec fn is_live(e: Stored, now: u64) -> bool {
    match e.1 {
        None => true,
        Some(t) => now < t,
    }
}

/// Whether key `k` is visible in `m` at `now`.
pub open spec fn live(m: Keyspace, k: Seq<char>, now: u64) -> bool {
    m.contains_key(k) && is_live(m[k], now)
}

/// The keyspace after a lookup of `k` at `now` has dropped `k` if it expired.
pub open spec fn purged(m: Keyspace, k: Seq<char>, now: u64) -> Keyspace {
    if m.contains_key(k) && !is_live(m[k], now) {
        m.remove(k)
    } else {
        m
    }
}

/// The clock reading `seconds` after `now`, capped at the largest reading.
pub open spec fn deadline(now: u64, seconds: u64) -> u64 {
    if now + seconds * 1000 <= u64::MAX {
        (now + seconds * 1000) as u64
    } else {
        u64::MAX
    }
}

/// The answer of a TTL query: -2 for no live key, -1 for a key without a
/// deadline, else the whole seconds left.
pub open spec fn ttl_of(m: Keyspace, k: Seq<char>, now: u64) -> int {
    if !live(m, k, now) {
        -2
    } else {
        match m[k].1 {
            None => -1,
            Some(t) => (t - now) / 1000,
        }
    }
}

/// `pattern` with every trailing `*` taken off.
pub open spec fn trim_stars(pattern: Seq<char>) -> Seq<char>
    decreases pattern.len(),
{
    if pattern.len() > 0 && pattern.last() == '*' {
        trim_stars(pattern.drop_last())
    } else {
        pattern
    }
}

/// Whether key `k` is selected by a KEYS pattern: a pattern that ends in `*`
/// selects the keys that start with what precedes its trailing stars; any
/// other pattern selects itself only.
pub open spec fn pattern_selects(pattern: Seq<char>, k: Seq<char>) -> bool {
    if pattern.len() > 0 && pattern.last() == '*' {
        let p = trim_stars(pattern);
        p.len() <= k.len() && k.subrange(0, p.len() as int) == p
    } else {
        k == pattern
    }
}

/// The text of the error that INCR and DECR give on a value that is no integer.
pub open spec fn not_an_integer() -> Seq<char> {
    "value is not an integer or out of range"@
}

/// The keyspace and result of adding `delta` to the integer under `k` at `now`.
pub open spec fn add_result(m: Keyspace, k: Seq<char>, delta: int, now: u64) -> (Keyspace, Option<i64>) {
    let p = purged(m, k, now);
    let cur = if live(m, k, now) { m[k].0 } else { seq!['0'] };
    let exp = if live(m, k, now) { m[k].1 } else { None };
    match i64_of_text(cur) {
        Some(v) => if i64::MIN <= v + delta <= i64::MAX {
            (p.insert(k, (int_text(v + delta), exp)), Some((v + delta) as i64))
        } else {
            (p, None)
        },
        None => (p, None),
    }
}

/// One key with its value and optional deadline (a clock reading in milliseconds).
pub struct Entry {
    pub key: String,
    pub value: String,
    pub expires_at: Option<u64>,
}

pub open spec fn entry_view(e: Entry) -> Stored {
    (e.value@, e.expires_at)
}

pub open spec fn holds_key(s: Seq<Entry>, k: Seq<char>) -> bool {
    exists|i: int| 0 <= i < s.len() && (#[trigger] s[i]).key@ == k
}

/// The keyspace that a list of entries with unique keys stands for.
pub open spec fn entries_map(s: Seq<Entry>) -> Keyspace {
    Map::new(
        |k: Seq<char>| holds_key(s, k),
        |k: Seq<char>| entry_view(s[choose|i: int| 0 <= i < s.len() && (#[trigger] s[i]).key@ == k]),
    )
}

pub open spec fn distinct_keys(s: Seq<Entry>) -> bool {
    forall|i: int, j: int|
        0 <= i < s.len() && 0 <= j < s.len() && i != j ==> (#[trigger] s[i]).key@ != (#[trigger] s[j]).key@
}

proof fn lemma_entry_at(s: Seq<Entry>, i: int)
    requires
        distinct_keys(s),
        0 <= i < s.len(),
    ensures
        entries_map(s).contains_key(s[i].key@),
        entries_map(s)[s[i].key@] == entry_view(s[i]),
{
    let k = s[i].key@;
    assert(holds_key(s, k));
    let j = choose|j: int| 0 <= j < s.len() && (#[trigger] s[j]).key@ == k;
    assert(j == i);
}

proof fn lemma_update(s: Seq<Entry>, i: int, e: Entry)
    requires
        distinct_keys(s),
        0 <= i < s.len(),
        e.key@ == s[i].key@,
    ensures
        distinct_keys(s.update(i, e)),
        entries_map(s.update(i, e)) == entries_map(s).insert(e.key@, entry_view(e)),
{
    let t = s.update(i, e);
    assert(distinct_keys(t)) by {
        assert forall|a: int, b: int| 0 <= a < t.len() && 0 <= b < t.len() && a != b implies
            (#[trigger] t[a]).key@ != (#[trigger] t[b]).key@ by {
            assert(s[a].key@ != s[b].key@);
        }
    }
    let m = entries_map(s).insert(e.key@, entry_view(e));
    assert forall|k: Seq<char>| #[trigger] entries_map(t).contains_key(k) <==> m.contains_key(k) by {
        if holds_key(s, k) {
            let j = choose|j: int| 0 <= j < s.len() && (#[trigger] s[j]).key@ == k;
            if j != i {
                assert(t[j].key@ == k);
            } else {
                assert(t[i].key@ == k);
            }
        }
        if holds_key(t, k) {
            let j = choose|j: int| 0 <= j < t.len() && (#[trigger] t[j]).key@ == k;
            if j != i {
                assert(s[j].key@ == k);
            }
        }
    }
    assert forall|k: Seq<char>| #[trigger] entries_map(t).contains_key(k) implies entries_map(t)[k] == m[k] by {
        let j = choose|j: int| 0 <= j < t.len() && (#[trigger] t[j]).key@ == k;
        lemma_entry_at(t, j);
        if j != i {
            lemma_entry_at(s, j);
        }
    }
    assert(entries_map(t) =~= m);
}

proof fn lemma_remove(s: Seq<Entry>, i: int)
    requires
        distinct_keys(s),
        0 <= i < s.len(),
    ensures
        distinct_keys(s.remove(i)),
        entries_map(s.remove(i)) == entries_map(s).remove(s[i].key@),
{
    let t = s.remove(i);
    let key = s[i].key@;
    assert forall|a: int| 0 <= a < t.len() implies #[trigger] t[a] == if a < i { s[a] } else { s[a + 1] } by {}
    assert(distinct_keys(t)) by {
        assert forall|a: int, b: int| 0 <= a < t.len() && 0 <= b < t.len() && a != b implies
            (#[trigger] t[a]).key@ != (#[trigger] t[b]).key@ by {
            let sa = if a < i { a } else { a + 1 };
            let sb = if b < i { b } else { b + 1 };
            assert(s[sa].key@ != s[sb].key@);
        }
    }
    let m = entries_map(s).remove(key);
    assert forall|k: Seq<char>| #[trigger] entries_map(t).contains_key(k) <==> m.contains_key(k) by {
        if holds_key(s, k) && k != key {
            let j = choose|j: int| 0 <= j < s.len() && (#[trigger] s[j]).key@ == k;
            if j < i {
                assert(t[j].key@ == k);
            } else {
                assert(t[j - 1].key@ == k);
            }
        }
        if holds_key(t, k) {
            let j = choose|j: int| 0 <= j < t.len() && (#[trigger] t[j]).key@ == k;
            let sj = if j < i { j } else { j + 1 };
            assert(s[sj].key@ == k);
        }
    }
    assert forall|k: Seq<char>| #[trigger] entries_map(t).contains_key(k) implies entries_map(t)[k] == m[k] by {
        let j = choose|j: int| 0 <= j < t.len() && (#[trigger] t[j]).key@ == k;
        lemma_entry_at(t, j);
        let sj = if j < i { j } else { j + 1 };
        lemma_entry_at(s, sj);
    }
    assert(entries_map(t) =~= m);
}

proof fn lemma_push(s: Seq<Entry>, e: Entry)
    requires
        distinct_keys(s),
        !holds_key(s, e.key@),
    ensures
        distinct_keys(s.push(e)),
        entries_map(s.push(e)) == entries_map(s).insert(e.key@, entry_view(e)),
{
    let t = s.push(e);
    let n = s.len() as int;
    assert(distinct_keys(t)) by {
        assert forall|a: int, b: int| 0 <= a < t.len() && 0 <= b < t.len() && a != b implies
            (#[trigger] t[a]).key@ != (#[trigger] t[b]).key@ by {
            if a < n && b < n {
                assert(s[a].key@ != s[b].key@);
            } else if a < n {
                assert(s[a].key@ != e.key@);
            } else if b < n {
                assert(s[b].key@ != e.key@);
            }
        }
    }
    let m = entries_map(s).insert(e.key@, entry_view(e));
    assert forall|k: Seq<char>| #[trigger] entries_map(t).contains_key(k) <==> m.contains_key(k) by {
        if holds_key(s, k) {
            let j = choose|j: int| 0 <= j < s.len() && (#[trigger] s[j]).key@ == k;
            assert(t[j].key@ == k);
        }
        if k == e.key@ {
            assert(t[n].key@ == k);
        }
        if holds_key(t, k) {
            let j = choose|j: int| 0 <= j < t.len() && (#[trigger] t[j]).key@ == k;
            if j < n {
                assert(s[j].key@ == k);
            }
        }
    }
    assert forall|k: Seq<char>| #[trigger] entries_map(t).contains_key(k) implies entries_map(t)[k] == m[k] by {
        let j = choose|j: int| 0 <= j < t.len() && (#[trigger] t[j]).key@ == k;
        lemma_entry_at(t, j);
        if j < n {
            lemma_entry_at(s, j);
        }
    }
    assert(entries_map(t) =~= m);
}


pub open spec fn opt_text(r: Option<String>) -> Option<Seq<char>> {
    match r {
        Some(s) => Some(s@),
        None => None,
    }
}

/// What a GET of `k` at `now` answers.
pub open spec fn lookup(m: Keyspace, k: Seq<char>, now: u64) -> Option<Seq<char>> {
    if live(m, k, now) {
        Some(m[k].0)
    } else {
        None
    }
}

/// The keyspace after EXPIRE of `k` by `seconds` at `now`, and its answer.
pub open spec fn expire_result(m: Keyspace, k: Seq<char>, seconds: u64, now: u64) -> (Keyspace, bool) {
    if live(m, k, now) {
        (m.insert(k, (m[k].0, Some(deadline(now, seconds)))), true)
    } else {
        (purged(m, k, now), false)
    }
}

/// The keyspace after PERSIST of `k` at `now`, and its answer.
pub open spec fn persist_result(m: Keyspace, k: Seq<char>, now: u64) -> (Keyspace, bool) {
    if live(m, k, now) && m[k].1 is Some {
        (m.insert(k, (m[k].0, None)), true)
    } else {
        (purged(m, k, now), false)
    }
}

/// Whether `r` lists exactly the live keys of `m` at `now` that `pattern`
/// selects, each once.
pub open spec fn lists_selected(r: Seq<String>, m: Keyspace, pattern: Seq<char>, now: u64) -> bool {
    &&& forall|k: Seq<char>| #[trigger] in_list(r, k) <==> (live(m, k, now) && pattern_selects(pattern, k))
    &&& forall|i: int, j: int| 0 <= i < r.len() && 0 <= j < r.len() && i != j ==> (#[trigger] r[i])@ != (#[trigger] r[j])@
}

/// Whether text `k` stands in `r`.
pub open spec fn in_list(r: Seq<String>, k: Seq<char>) -> bool {
    exists|i: int| 0 <= i < r.len() && (#[trigger] r[i])@ == k
}

spec fn picked(items: Seq<Entry>, n: int, pattern: Seq<char>, now: u64, k: Seq<char>) -> bool {
    exists|j: int|
        0 <= j < n && (#[trigger] items[j]).key@ == k && is_live(entry_view(items[j]), now) && pattern_selects(pattern, k)
}

#[verifier::external_type_specification]
#[verifier::external_body]
pub struct ExInstant(std::time::Instant);

/// Relies on std::time::Instant::now: a reading of the monotonic clock.
#[verifier::external_body]
fn clock_start() -> std::time::Instant {
    std::time::Instant::now()
}

/// Relies on std::time::Instant::elapsed: the time since `start`, in whole
/// milliseconds. Nothing is known of the value.
#[verifier::external_body]
fn millis_since(start: &std::time::Instant) -> u128 {
    start.elapsed().as_millis()
}

/// The keyspace: entries under unique keys, and the instant that clock
/// readings count from.
pub struct DB {
    items: Vec<Entry>,
    epoch: std::time::Instant,
}

impl View for DB {
    type V = Keyspace;

    closed spec fn view(&self) -> Keyspace {
        entries_map(self.items@)
    }
}

impl DB {
    /// No two entries share a key.
    pub closed spec fn wf(&self) -> bool {
        distinct_keys(self.items@)
    }

    pub fn new() -> (r: DB)
        ensures
            r.wf(),
            r@ == Map::<Seq<char>, Stored>::empty(),
    {
        let r = DB { items: Vec::new(), epoch: clock_start() };
        assert(r@ =~= Map::<Seq<char>, Stored>::empty());
        r
    }

    /// The clock reading, in milliseconds since this keyspace was made.
    pub fn now(&self) -> u64 {
        let ms = millis_since(&self.epoch);
        if ms > u64::MAX as u128 {
            u64::MAX
        } else {
            ms as u64
        }
    }

    fn find(&self, key: &String) -> (r: Option<usize>)
        requires
            self.wf(),
        ensures
            match r {
                Some(i) => i < self.items@.len() && self.items@[i as int].key@ == key@
                    && self@.contains_key(key@) && self@[key@] == entry_view(self.items@[i as int]),
                None => !self@.contains_key(key@),
            },
    {
        let mut i: usize = 0;
        while i < self.items.len()
            invariant
                i <= self.items@.len(),
                self.wf(),
                forall|j: int| 0 <= j < i ==> (#[trigger] self.items@[j]).key@ != key@,
            decreases self.items@.len() - i,
        {
            if self.items[i].key == *key {
                proof {
                    lemma_entry_at(self.items@, i as int);
                }
                return Some(i);
            }
            i = i + 1;
        }
        None
    }

    /// Drops `key` if it has expired at `now`; gives the place of its entry if it is live.
    fn purge(&mut self, key: &String, now: u64) -> (r: Option<usize>)
        requires
            old(self).wf(),
        ensures
            final(self).wf(),
            final(self)@ == purged(old(self)@, key@, now),
            r is Some <==> live(old(self)@, key@, now),
            r is None ==> !final(self)@.contains_key(key@),
            r is Some ==> final(self).items@ == old(self).items@ && r->0 < final(self).items@.len()
                && final(self).items@[r->0 as int].key@ == key@,
    {
        match self.find(key) {
            None => None,
            Some(i) => {
                let alive = match self.items[i].expires_at {
                    None => true,
                    Some(t) => now < t,
                };
                if alive {
                    Some(i)
                } else {
                    proof {
                        lemma_remove(self.items@, i as int);
                    }
                    self.items.remove(i);
                    None
                }
            },
        }
    }

    /// The value under `item` at clock reading `now`; an expired entry is dropped.
    pub fn get_at(&mut self, item: String, now: u64) -> (r: Option<String>)
        requires
            old(self).wf(),
        ensures
            final(self).wf(),
            final(self)@ == purged(old(self)@, item@, now),
            opt_text(r) == lookup(old(self)@, item@, now),
    {
        match self.purge(&item, now) {
            None => None,
            Some(i) => {
                proof {
                    lemma_entry_at(self.items@, i as int);
                }
                Some(self.items[i].value.clone())
            },
        }
    }

    /// Stores `value` under `item`, with no deadline.
    pub fn set(&mut self, item: String, value: String)
        requires
            old(self).wf(),
        ensures
            final(self).wf(),
            final(self)@ == old(self)@.insert(item@, (value@, None)),
    {
        let e = Entry { key: item, value, expires_at: None };
        match self.find(&e.key) {
            Some(i) => {
                proof {
                    lemma_update(self.items@, i as int, e);
                }
                self.items.set(i, e);
            },
            None => {
                proof {
                    lemma_push(self.items@, e);
                }
                self.items.push(e);
            },
        }
    }

    /// Removes `item`, if it is there.
    pub fn del(&mut self, item: String)
        requires
            old(self).wf(),
        ensures
            final(self).wf(),
            final(self)@ == old(self)@.remove(item@),
    {
        match self.find(&item) {
            Some(i) => {
                proof {
                    lemma_remove(self.items@, i as int);
                }
                self.items.remove(i);
            },
            None => {
                assert(self@ =~= self@.remove(item@));
            },
        }
    }

    /// Whether `item` is live at `now`.
    pub fn exists_at(&self, item: String, now: u64) -> (r: bool)
        requires
            self.wf(),
        ensures
            r == live(self@, item@, now),
    {
        match self.find(&item) {
            None => false,
            Some(i) => match self.items[i].expires_at {
                None => true,
                Some(t) => now < t,
            },
        }
    }

    /// The live keys at `now` that `pattern` selects.
    pub fn keys_at(&self, pattern: String, now: u64) -> (r: Vec<String>)
        requires
            self.wf(),
        ensures
            lists_selected(r@, self@, pattern@, now),
    {
        let n = pattern.as_str().unicode_len();
        if n == 0 || pattern.as_str().get_char(n - 1) != '*' {
            let mut r: Vec<String> = Vec::new();
            if self.exists_at(pattern.clone(), now) {
                r.push(pattern);
            }
            assert forall|k: Seq<char>|
                #[trigger] in_list(r@, k) <==> (live(self@, k, now) && pattern_selects(pattern@, k)) by {
                if r@.len() > 0 && k == pattern@ {
                    assert(r@[0]@ == k);
                }
            }
            return r;
        }
        assert(pattern@.subrange(0, n as int) =~= pattern@);
        let mut plen: usize = n;
        while plen > 0 && pattern.as_str().get_char(plen - 1) == '*'
            invariant
                plen <= n,
                n == pattern@.len(),
                trim_stars(pattern@.subrange(0, plen as int)) == trim_stars(pattern@),
            decreases plen,
        {
            assert(pattern@.subrange(0, plen as int).drop_last() =~= pattern@.subrange(0, plen - 1));
            plen = plen - 1;
        }
        assert(trim_stars(pattern@.subrange(0, plen as int)) == pattern@.subrange(0, plen as int));
        let ghost prefix = pattern@.subrange(0, plen as int);
        let mut r: Vec<String> = Vec::new();
        let mut i: usize = 0;
        while i < self.items.len()
            invariant
                self.wf(),
                i <= self.items@.len(),
                plen <= pattern@.len(),
                prefix == pattern@.subrange(0, plen as int),
                prefix == trim_stars(pattern@),
                pattern@.len() > 0 && pattern@.last() == '*',
                forall|a: int| 0 <= a < r@.len() ==> exists|j: int| 0 <= j < i && (#[trigger] self.items@[j]).key@ == (#[trigger] r@[a])@,
                forall|a: int, b: int| 0 <= a < r@.len() && 0 <= b < r@.len() && a != b ==> (#[trigger] r@[a])@ != (#[trigger] r@[b])@,
                forall|k: Seq<char>| #[trigger] in_list(r@, k) <==> picked(self.items@, i as int, pattern@, now, k),
            decreases self.items@.len() - i,
        {
            let e = &self.items[i];
            let alive = match e.expires_at {
                None => true,
                Some(t) => now < t,
            };
            let klen = e.key.as_str().unicode_len();
            let mut hit = alive && plen <= klen;
            let mut j: usize = 0;
            while hit && j < plen
                invariant
                    j <= plen,
                    hit ==> alive && plen <= klen,
                    klen == e.key@.len(),
                    plen <= pattern@.len(),
                    hit ==> forall|x: int| 0 <= x < j ==> e.key@[x] == pattern@[x],
                    !hit ==> !(alive && plen <= klen && e.key@.subrange(0, plen as int) == prefix),
                    prefix == pattern@.subrange(0, plen as int),
                decreases plen - j,
            {
                if e.key.as_str().get_char(j) != pattern.as_str().get_char(j) {
                    hit = false;
                    assert(e.key@.subrange(0, plen as int)[j as int] != prefix[j as int]);
                }
                j = j + 1;
            }
            if hit {
                assert(e.key@.subrange(0, plen as int) =~= prefix);
            }
            let ghost k0 = e.key@;
            assert(hit == (is_live(entry_view(*e), now) && pattern_selects(pattern@, k0)));
            let ghost old_r = r@;
            if hit {
                let c = e.key.clone();
                r.push(c);
                assert forall|a: int| 0 <= a < old_r.len() implies (#[trigger] r@[a])@ != k0 by {
                    let j0 = choose|j: int| 0 <= j < i && (#[trigger] self.items@[j]).key@ == old_r[a]@;
                    assert(self.items@[j0].key@ != self.items@[i as int].key@);
                }
            }
            assert forall|k: Seq<char>| #[trigger] in_list(r@, k) <==> picked(self.items@, i + 1, pattern@, now, k) by {
                if k != k0 {
                    if in_list(r@, k) {
                        let a = choose|a: int| 0 <= a < r@.len() && (#[trigger] r@[a])@ == k;
                        assert(old_r[a]@ == k);
                        assert(in_list(old_r, k));
                    }
                    if in_list(old_r, k) {
                        let a = choose|a: int| 0 <= a < old_r.len() && (#[trigger] old_r[a])@ == k;
                        assert(r@[a]@ == k);
                    }
                    if picked(self.items@, i + 1, pattern@, now, k) {
                        let j = choose|j: int| 0 <= j < i + 1 && (#[trigger] self.items@[j]).key@ == k
                            && is_live(entry_view(self.items@[j]), now) && pattern_selects(pattern@, k);
                        assert(j != i);
                        assert(picked(self.items@, i as int, pattern@, now, k));
                    }
                } else {
                    if in_list(old_r, k) {
                        let a = choose|a: int| 0 <= a < old_r.len() && (#[trigger] old_r[a])@ == k;
                        let j0 = choose|j: int| 0 <= j < i && (#[trigger] self.items@[j]).key@ == old_r[a]@;
                        assert(self.items@[j0].key@ != self.items@[i as int].key@);
                    }
                    if picked(self.items@, i as int, pattern@, now, k) {
                        let j = choose|j: int| 0 <= j < i && (#[trigger] self.items@[j]).key@ == k
                            && is_live(entry_view(self.items@[j]), now) && pattern_selects(pattern@, k);
                        assert(self.items@[j].key@ != self.items@[i as int].key@);
                    }
                    if hit {
                        assert(r@[r@.len() - 1]@ == k);
                        assert(self.items@[i as int].key@ == k);
                    } else {
                        assert(r@ == old_r);
                        if picked(self.items@, i + 1, pattern@, now, k) {
                            let j = choose|j: int| 0 <= j < i + 1 && (#[trigger] self.items@[j]).key@ == k
                                && is_live(entry_view(self.items@[j]), now) && pattern_selects(pattern@, k);
                            if j < i {
                                assert(self.items@[j].key@ != self.items@[i as int].key@);
                            }
                        }
                    }
                }
            }
            assert forall|a: int| 0 <= a < r@.len() implies exists|j: int| 0 <= j < i + 1 && (#[trigger] self.items@[j]).key@ == (#[trigger] r@[a])@ by {
                if a < old_r.len() {
                    let j0 = choose|j: int| 0 <= j < i && (#[trigger] self.items@[j]).key@ == old_r[a]@;
                    assert(self.items@[j0].key@ == r@[a]@);
                } else {
                    assert(self.items@[i as int].key@ == r@[a]@);
                }
            }
            i = i + 1;
        }
        assert forall|k: Seq<char>|
            #[trigger] in_list(r@, k) <==> (live(self@, k, now) && pattern_selects(pattern@, k)) by {
            if live(self@, k, now) {
                let j = choose|j: int| 0 <= j < self.items@.len() && (#[trigger] self.items@[j]).key@ == k;
                lemma_entry_at(self.items@, j);
            }
            if picked(self.items@, self.items@.len() as int, pattern@, now, k) {
                let j = choose|j: int| 0 <= j < self.items@.len() && (#[trigger] self.items@[j]).key@ == k
                    && is_live(entry_view(self.items@[j]), now) && pattern_selects(pattern@, k);
                lemma_entry_at(self.items@, j);
            }
        }
        r
    }

    fn add_at(&mut self, key: String, delta: i64, now: u64) -> (r: Result<i64, String>)
        requires
            old(self).wf(),
        ensures
            final(self).wf(),
            final(self)@ == add_result(old(self)@, key@, delta as int, now).0,
            match r {
                Ok(v) => add_result(old(self)@, key@, delta as int, now).1 == Some(v),
                Err(e) => add_result(old(self)@, key@, delta as int, now).1 is None && e@ == not_an_integer(),
            },
    {
        let ghost m = self@;
        let idx = self.purge(&key, now);
        let parsed = match idx {
            Some(i) => {
                proof {
                    lemma_entry_at(self.items@, i as int);
                }
                parse_i64(self.items[i].value.as_str())
            },
            None => {
                proof {
                    lemma_single_digit(0);
                    assert(digit_char(0) == '0');
                }
                Some(0i64)
            },
        };
        proof {
            reveal_strlit("value is not an integer or out of range");
        }
        let v = match parsed {
            None => {
                return Err(String::from_str("value is not an integer or out of range"));
            },
            Some(v) => v,
        };
        let nv = match v.checked_add(delta) {
            None => {
                return Err(String::from_str("value is not an integer or out of range"));
            },
            Some(nv) => nv,
        };
        let text = format_i64(nv);
        match idx {
            Some(i) => {
                let e = Entry { key, value: text, expires_at: self.items[i].expires_at };
                proof {
                    lemma_update(self.items@, i as int, e);
                }
                self.items.set(i, e);
            },
            None => {
                let e = Entry { key, value: text, expires_at: None };
                proof {
                    lemma_push(self.items@, e);
                }
                self.items.push(e);
            },
        }
        Ok(nv)
    }

    /// Adds one to the integer under `key` at `now` (a missing key counts as 0).
    pub fn incr_at(&mut self, key: String, now: u64) -> (r: Result<i64, String>)
        requires
            old(self).wf(),
        ensures
            final(self).wf(),
            final(self)@ == add_result(old(self)@, key@, 1, now).0,
            match r {
                Ok(v) => add_result(old(self)@, key@, 1, now).1 == Some(v),
                Err(e) => add_result(old(self)@, key@, 1, now).1 is None && e@ == not_an_integer(),
            },
    {
        self.add_at(key, 1, now)
    }

    /// Takes one from the integer under `key` at `now` (a missing key counts as 0).
    pub fn decr_at(&mut self, key: String, now: u64) -> (r: Result<i64, String>)
        requires
            old(self).wf(),
        ensures
            final(self).wf(),
            final(self)@ == add_result(old(self)@, key@, -1, now).0,
            match r {
                Ok(v) => add_result(old(self)@, key@, -1, now).1 == Some(v),
                Err(e) => add_result(old(self)@, key@, -1, now).1 is None && e@ == not_an_integer(),
            },
    {
        self.add_at(key, -1, now)
    }

    /// Gives a live `key` the deadline `seconds` after `now`; answers whether it did.
    pub fn expire_at(&mut self, key: String, seconds: u64, now: u64) -> (r: bool)
        requires
            old(self).wf(),
        ensures
            final(self).wf(),
            (final(self)@, r) == expire_result(old(self)@, key@, seconds, now),
    {
        match self.purge(&key, now) {
            None => false,
            Some(i) => {
                let t: u128 = now as u128 + seconds as u128 * 1000;
                let d: u64 = if t <= u64::MAX as u128 {
                    t as u64
                } else {
                    u64::MAX
                };
                proof {
                    lemma_entry_at(self.items@, i as int);
                }
                let value = self.items[i].value.clone();
                let e = Entry { key, value, expires_at: Some(d) };
                proof {
                    lemma_update(self.items@, i as int, e);
                }
                self.items.set(i, e);
                true
            },
        }
    }

    /// The time that `key` has left at `now`, in whole seconds; -1 for a key
    /// without a deadline, -2 for no live key.
    pub fn ttl_at(&mut self, key: String, now: u64) -> (r: i64)
        requires
            old(self).wf(),
        ensures
            final(self).wf(),
            final(self)@ == purged(old(self)@, key@, now),
            r == ttl_of(old(self)@, key@, now),
    {
        match self.purge(&key, now) {
            None => -2,
            Some(i) => {
                proof {
                    lemma_entry_at(self.items@, i as int);
                }
                match self.items[i].expires_at {
                    None => -1,
                    Some(t) => ((t - now) / 1000) as i64,
                }
            },
        }
    }

    /// Takes the deadline off a live `key`; answers whether it had one.
    pub fn persist_at(&mut self, key: String, now: u64) -> (r: bool)
        requires
            old(self).wf(),
        ensures
            final(self).wf(),
            (final(self)@, r) == persist_result(old(self)@, key@, now),
    {
        match self.purge(&key, now) {
            None => false,
            Some(i) => {
                proof {
                    lemma_entry_at(self.items@, i as int);
                }
                if self.items[i].expires_at.is_none() {
                    return false;
                }
                let value = self.items[i].value.clone();
                let e = Entry { key, value, expires_at: None };
                proof {
                    lemma_update(self.items@, i as int, e);
                }
                self.items.set(i, e);
                true
            },
        }
    }

    /// The value under `item` now; what holds for some clock reading.
    pub fn get(&mut self, item: String) -> (r: Option<String>)
        requires
            old(self).wf(),
        ensures
            final(self).wf(),
            exists|now: u64|
                final(self)@ == purged(old(self)@, item@, now) && opt_text(r) == #[trigger] lookup(old(self)@, item@, now),
    {
        let now = self.now();
        self.get_at(item, now)
    }

    /// Whether `item` is live now.
    pub fn key_exists(&self, item: String) -> (r: bool)
        requires
            self.wf(),
        ensures
            exists|now: u64| r == #[trigger] live(self@, item@, now),
    {
        let now = self.now();
        self.exists_at(item, now)
    }

    /// The live keys that `pattern` selects now.
    pub fn keys(&self, pattern: String) -> (r: Vec<String>)
        requires
            self.wf(),
        ensures
            exists|now: u64| #[trigger] lists_selected(r@, self@, pattern@, now),
    {
        let now = self.now();
        self.keys_at(pattern, now)
    }

    /// Adds one to the integer under `key` now.
    pub fn incr(&mut self, key: String) -> (r: Result<i64, String>)
        requires
            old(self).wf(),
        ensures
            final(self).wf(),
            exists|now: u64|
                final(self)@ == (#[trigger] add_result(old(self)@, key@, 1, now)).0 && match r {
                    Ok(v) => add_result(old(self)@, key@, 1, now).1 == Some(v),
                    Err(e) => add_result(old(self)@, key@, 1, now).1 is None && e@ == not_an_integer(),
                },
    {
        let now = self.now();
        self.incr_at(key, now)
    }

    /// Takes one from the integer under `key` now.
    pub fn decr(&mut self, key: String) -> (r: Result<i64, String>)
        requires
            old(self).wf(),
        ensures
            final(self).wf(),
            exists|now: u64|
                final(self)@ == (#[trigger] add_result(old(self)@, key@, -1, now)).0 && match r {
                    Ok(v) => add_result(old(self)@, key@, -1, now).1 == Some(v),
                    Err(e) => add_result(old(self)@, key@, -1, now).1 is None && e@ == not_an_integer(),
                },
    {
        let now = self.now();
        self.decr_at(key, now)
    }

    /// Gives a live `key` a deadline `seconds` from now.
    pub fn expire(&mut self, key: String, seconds: u64) -> (r: bool)
        requires
            old(self).wf(),
        ensures
            final(self).wf(),
            exists|now: u64| (final(self)@, r) == #[trigger] expire_result(old(self)@, key@, seconds, now),
    {
        let now = self.now();
        self.expire_at(key, seconds, now)
    }

    /// The whole seconds that `key` has left now, -1 or -2.
    pub fn ttl(&mut self, key: String) -> (r: i64)
        requires
            old(self).wf(),
        ensures
            final(self).wf(),
            exists|now: u64| final(self)@ == purged(old(self)@, key@, now) && r == #[trigger] ttl_of(old(self)@, key@, now),
    {
        let now = self.now();
        self.ttl_at(key, now)
    }

    /// Takes the deadline off a live `key` now.
    pub fn persist(&mut self, key: String) -> (r: bool)
        requires
            old(self).wf(),
        ensures
            final(self).wf(),
            exists|now: u64| (final(self)@, r) == #[trigger] persist_result(old(self)@, key@, now),
    {
        let now = self.now();
        self.persist_at(key, now)
    }
}

/// After EXPIRE of a live key by `seconds` at reading `t`, the key is live at
/// every reading before the deadline `t + seconds` and at none from it on; a
/// lookup before the deadline leaves the keyspace as it is; and between two
/// readings before the deadline at least a second apart, its TTL falls.
pub proof fn expiry_is_monotone(m: Keyspace, k: Seq<char>, seconds: u64, t: u64, now1: u64, now2: u64)
    requires
        live(m, k, t),
    ensures
        live(expire_result(m, k, seconds, t).0, k, now1) <==> now1 < deadline(t, seconds),
        now1 < deadline(t, seconds) ==> purged(expire_result(m, k, seconds, t).0, k, now1) == expire_result(
            m,
            k,
            seconds,
            t,
        ).0,
        now1 + 1000 <= now2 < deadline(t, seconds) ==> ttl_of(expire_result(m, k, seconds, t).0, k, now2) < ttl_of(
            expire_result(m, k, seconds, t).0,
            k,
            now1,
        ),
        ttl_of(expire_result(m, k, seconds, t).0, k, now1) >= 0 || now1 >= deadline(t, seconds),
{
    let m2 = expire_result(m, k, seconds, t).0;
    assert(m2.contains_key(k) && m2[k].1 == Some(deadline(t, seconds)));
}

/// On a key that is not live, INCR answers 1, a DECR after it answers 0, and
/// the key then holds the text `0`.
pub proof fn incr_then_decr_gives_zero(m: Keyspace, k: Seq<char>, t1: u64, t2: u64)
    requires
        !live(m, k, t1),
    ensures
        add_result(m, k, 1, t1).1 == Some(1i64),
        add_result(add_result(m, k, 1, t1).0, k, -1, t2).1 == Some(0i64),
        add_result(add_result(m, k, 1, t1).0, k, -1, t2).0.contains_key(k),
        add_result(add_result(m, k, 1, t1).0, k, -1, t2).0[k].0 == seq!['0'],
{
    lemma_single_digit(0);
    lemma_single_digit(1);
    assert(digit_char(0) == '0');
    assert(digit_char(1) == '1');
    let m1 = add_result(m, k, 1, t1).0;
    assert(m1.contains_key(k) && m1[k] == (seq!['1'], None::<u64>));
    assert(live(m1, k, t2));
}

} // verus!