//! The pin store: each known user's bookmarks in insertion order, with ids
//! from a per-user counter and no two pins of a user on the same normalized URL.

use vstd::prelude::*;
use crate::pin::Pin;
use crate::text::{chars_of, contains, contains_chars, lower_of, lowercase, trim, trimmed};
use crate::url::{normalize, normalize_url, same_chars};

verus! {

/// Why a pin operation failed.
#[derive(Debug, Clone, Copy, PartialEq, Eq, Structural)]
pub enum PinError {
    MissingUrl,
    DuplicateUrl(u64),
    UserNotFound,
    StorageFailure,
}

/// One user's collection and the id its next pin gets.
pub struct UserPins {
    pub username: String,
    pub pins: Vec<Pin>,
    pub next_id: u64,
}

/// The normalized primary URL of a pin; empty when it has none.
pub open spec fn primary_url(p: Pin) -> Seq<char> {
    if p.urls@.len() > 0 {
        normalize(p.urls@[0]@)
    } else {
        Seq::empty()
    }
}

/// Whether some entry belongs to `name`.
pub open spec fn has_name(users: Seq<UserPins>, name: Seq<char>) -> bool {
    exists|i: int| 0 <= i < users.len() && (#[trigger] users[i]).username@ == name
}

/// The position of `name`'s entry, where there is one.
pub open spec fn entry_of(users: Seq<UserPins>, name: Seq<char>) -> int {
    choose|i: int| 0 <= i < users.len() && (#[trigger] users[i]).username@ == name
}

/// The pins of `name`, in insertion order; empty for an unknown user.
pub open spec fn pins_of(users: Seq<UserPins>, name: Seq<char>) -> Seq<Pin> {
    if has_name(users, name) {
        users[entry_of(users, name)].pins@
    } else {
        Seq::empty()
    }
}

/// The id that `name`'s next pin gets.
pub open spec fn next_id_of(users: Seq<UserPins>, name: Seq<char>) -> u64 {
    if has_name(users, name) {
        users[entry_of(users, name)].next_id
    } else {
        0
    }
}

/// One user's collection is sound: every pin has a URL, ids increase in
/// insertion order and stay under the counter, and no pin's first URL
/// normalizes like any URL of a pin stored before it.
pub open spec fn entry_wf(e: UserPins) -> bool {
    let ps = e.pins@;
    &&& forall|k: int| 0 <= k < ps.len() ==> (#[trigger] ps[k]).urls@.len() > 0
    &&& forall|k: int| 0 <= k < ps.len() ==> (#[trigger] ps[k]).id < e.next_id
    &&& forall|k: int, l: int| 0 <= k < l < ps.len() ==> (#[trigger] ps[k]).id < (#[trigger] ps[l]).id
    &&& forall|k: int, l: int|
        0 <= k < l < ps.len() ==> !holds_url(#[trigger] ps[k], primary_url(#[trigger] ps[l]))
}

/// Every collection is sound and no two belong to the same name.
pub open spec fn entries_wf(users: Seq<UserPins>) -> bool {
    &&& forall|i: int| 0 <= i < users.len() ==> entry_wf(#[trigger] users[i])
    &&& forall|i: int, j: int|
        0 <= i < users.len() && 0 <= j < users.len() && i != j ==> (#[trigger] users[i]).username@
            != (#[trigger] users[j]).username@
}

/// A pin without a usable URL: none at all, or a first one that is blank
/// once surrounding whitespace is trimmed.
pub open spec fn missing_url(pin: Pin) -> bool {
    pin.urls@.len() == 0 || trim(pin.urls@[0]@).len() == 0
}

/// Whether one of the pin's URLs normalizes to `url`.
pub open spec fn holds_url(p: Pin, url: Seq<char>) -> bool {
    exists|m: int| 0 <= m < p.urls@.len() && normalize((#[trigger] p.urls@[m])@) == url
}

/// Whether one of `pins` has a URL that normalizes to `url`.
pub open spec fn url_taken(pins: Seq<Pin>, url: Seq<char>) -> bool {
    exists|k: int| 0 <= k < pins.len() && holds_url(#[trigger] pins[k], url)
}

/// `pin` as stored under the id `id`.
pub open spec fn with_id(pin: Pin, id: u64) -> Pin {
    Pin { id: id, ..pin }
}

/// Only `name`'s collection differs between `before` and `after`.
pub open spec fn others_unchanged(before: Seq<UserPins>, after: Seq<UserPins>, name: Seq<char>) -> bool {
    &&& forall|n: Seq<char>| n != name ==> #[trigger] has_name(after, n) == has_name(before, n)
    &&& forall|n: Seq<char>| n != name ==> #[trigger] pins_of(after, n) == pins_of(before, n)
}

/// What adding `pin` for `name` does to the entries `before`, giving `after` and
/// `r`. Failures, checked in this order, leave the entries alone: an unknown
/// user, a missing URL, a URL already pinned (with that pin's id), an
/// exhausted id counter. Otherwise the pin is appended under the next id.
pub open spec fn add_post(
    before: Seq<UserPins>,
    after: Seq<UserPins>,
    name: Seq<char>,
    pin: Pin,
    r: Result<u64, PinError>,
) -> bool {
    let pins = pins_of(before, name);
    if !has_name(before, name) {
        r == Err::<u64, PinError>(PinError::UserNotFound) && after == before
    } else if missing_url(pin) {
        r == Err::<u64, PinError>(PinError::MissingUrl) && after == before
    } else if url_taken(pins, primary_url(pin)) {
        &&& after == before
        &&& exists|k: int|
            0 <= k < pins.len() && holds_url(#[trigger] pins[k], primary_url(pin)) && r == Err::<
                u64,
                PinError,
            >(PinError::DuplicateUrl(pins[k].id))
    } else if next_id_of(before, name) == u64::MAX {
        r == Err::<u64, PinError>(PinError::StorageFailure) && after == before
    } else {
        &&& r == Ok::<u64, PinError>(next_id_of(before, name))
        &&& has_name(after, name)
        &&& pins_of(after, name) == pins.push(with_id(pin, next_id_of(before, name)))
        &&& next_id_of(after, name) == next_id_of(before, name) + 1
        &&& others_unchanged(before, after, name)
    }
}

proof fn lemma_entry_of(users: Seq<UserPins>, name: Seq<char>, i: int)
    requires
        entries_wf(users),
        0 <= i < users.len(),
        users[i].username@ == name,
    ensures
        has_name(users, name),
        entry_of(users, name) == i,
        pins_of(users, name) == users[i].pins@,
        next_id_of(users, name) == users[i].next_id,
{
    assert(has_name(users, name));
}

proof fn lemma_unchanged_from(before: Seq<UserPins>, after: Seq<UserPins>, name: Seq<char>)
    requires
        forall|n: Seq<char>| n != name ==> #[trigger] has_name(after, n) == has_name(before, n)
            && pins_of(after, n) == pins_of(before, n),
    ensures
        others_unchanged(before, after, name),
{
    assert forall|n: Seq<char>| n != name implies #[trigger] pins_of(after, n) == pins_of(before, n) by {
        assert(has_name(after, n) == has_name(before, n));
    }
}

proof fn lemma_update_others(before: Seq<UserPins>, after: Seq<UserPins>, i: int, name: Seq<char>)
    requires
        entries_wf(before),
        entries_wf(after),
        0 <= i < before.len(),
        after.len() == before.len(),
        forall|j: int| 0 <= j < before.len() && j != i ==> after[j] == before[j],
        before[i].username@ == name,
        after[i].username@ == name,
    ensures
        others_unchanged(before, after, name),
{
    assert forall|n: Seq<char>| n != name implies #[trigger] has_name(after, n) == has_name(before, n)
        && pins_of(after, n) == pins_of(before, n) by {
        if has_name(before, n) {
            let j = entry_of(before, n);
            lemma_entry_of(before, n, j);
            assert(after[j] == before[j]);
            lemma_entry_of(after, n, j);
        } else if has_name(after, n) {
            let j = entry_of(after, n);
            assert(after[j] == before[j]);
            assert(has_name(before, n));
        }
    }
    lemma_unchanged_from(before, after, name);
}

proof fn lemma_push_others(before: Seq<UserPins>, after: Seq<UserPins>, e: UserPins, name: Seq<char>)
    requires
        entries_wf(before),
        entries_wf(after),
        after == before.push(e),
        e.username@ == name,
    ensures
        others_unchanged(before, after, name),
{
    assert forall|n: Seq<char>| n != name implies #[trigger] has_name(after, n) == has_name(before, n)
        && pins_of(after, n) == pins_of(before, n) by {
        if has_name(before, n) {
            let j = entry_of(before, n);
            lemma_entry_of(before, n, j);
            assert(after[j] == before[j]);
            lemma_entry_of(after, n, j);
            assert(pins_of(after, n) == pins_of(before, n));
            assert(has_name(after, n));
        } else {
            assert(!has_name(after, n)) by {
                if has_name(after, n) {
                    let j = entry_of(after, n);
                    assert(after[before.len() as int] == e);
                    assert(j != before.len());
                    assert(after[j] == before[j]);
                    assert(before[j].username@ == n);
                }
            }
        }
    }
    lemma_unchanged_from(before, after, name);
}

/// Whether one of the pin's tags is exactly `q`.
pub open spec fn has_tag(p: Pin, q: Seq<char>) -> bool {
    exists|k: int| 0 <= k < p.tags@.len() && (#[trigger] p.tags@[k])@ == q
}

/// Whether a pin answers the query `q`: a tag equal to it, or a title or
/// description that contains it once both are lower-cased.
pub open spec fn pin_matches(p: Pin, q: Seq<char>) -> bool {
    has_tag(p, q) || contains(lower_of(p.title@), lower_of(q)) || contains(
        lower_of(p.description@),
        lower_of(q),
    )
}

/// The ids of the pins of `ps` that answer `q`, in order.
pub open spec fn matching_ids(ps: Seq<Pin>, q: Seq<char>) -> Seq<u64>
    decreases ps.len(),
{
    if ps.len() == 0 {
        Seq::empty()
    } else {
        let r = matching_ids(ps.drop_last(), q);
        if pin_matches(ps.last(), q) {
            r.push(ps.last().id)
        } else {
            r
        }
    }
}

fn pin_answers(p: &Pin, q: &String, lq: &Vec<char>) -> (r: bool)
    requires
        lq@ == lower_of(q@),
    ensures
        r == pin_matches(*p, q@),
{
    let mut k: usize = 0;
    while k < p.tags.len()
        invariant
            0 <= k <= p.tags@.len(),
            forall|m: int| 0 <= m < k ==> (#[trigger] p.tags@[m])@ != q@,
        decreases p.tags@.len() - k,
    {
        if p.tags[k] == *q {
            return true;
        }
        k = k + 1;
    }
    let title = chars_of(lowercase(p.title.as_str()).as_str());
    if contains_chars(&title, lq) {
        return true;
    }
    let description = chars_of(lowercase(p.description.as_str()).as_str());
    contains_chars(&description, lq)
}

fn pin_holds(p: &Pin, key: &Vec<char>) -> (r: bool)
    ensures
        r == holds_url(*p, key@),
{
    let mut m: usize = 0;
    while m < p.urls.len()
        invariant
            0 <= m <= p.urls@.len(),
            forall|j: int| 0 <= j < m ==> normalize((#[trigger] p.urls@[j])@) != key@,
        decreases p.urls@.len() - m,
    {
        let u = normalize_url(p.urls[m].as_str());
        if same_chars(&u, key) {
            return true;
        }
        m = m + 1;
    }
    false
}

/// The collections of all known users.
pub struct PinStore {
    users: Vec<UserPins>,
}

impl PinStore {
    /// The per-user entries held.
    pub closed spec fn entries(&self) -> Seq<UserPins> {
        self.users@
    }

    pub open spec fn wf(&self) -> bool {
        entries_wf(self.entries())
    }

    /// A store that knows no user.
    pub fn new() -> (r: PinStore)
        ensures
            r.wf(),
            forall|n: Seq<char>| !has_name(r.entries(), n),
    {
        PinStore { users: Vec::new() }
    }

    /// Makes `username` a known user with an empty collection; returns
    /// whether it was unknown before. A known user keeps their pins.
    pub fn register_user(&mut self, username: String) -> (r: bool)
        requires
            old(self).wf(),
        ensures
            final(self).wf(),
            r == !has_name(old(self).entries(), username@),
            has_name(final(self).entries(), username@),
            pins_of(final(self).entries(), username@) == pins_of(old(self).entries(), username@),
            r ==> next_id_of(final(self).entries(), username@) == 0,
            others_unchanged(old(self).entries(), final(self).entries(), username@),
            !r ==> final(self).entries() == old(self).entries(),
    {
        if self.find(username.as_str()).is_some() {
            return false;
        }
        let ghost old_users = self.users@;
        let ghost name = username@;
        let e = UserPins { username, pins: Vec::new(), next_id: 0 };
        self.users.push(e);
        proof {
            let after = self.users@;
            assert(after == old_users.push(e));
            assert forall|i: int, j: int|
                0 <= i < after.len() && 0 <= j < after.len() && i != j implies (
                #[trigger] after[i]).username@ != (#[trigger] after[j]).username@ by {
                if i < old_users.len() && j < old_users.len() {
                    assert(old_users[i] == after[i] && old_users[j] == after[j]);
                } else if i < old_users.len() {
                    assert(old_users[i] == after[i]);
                } else if j < old_users.len() {
                    assert(old_users[j] == after[j]);
                }
            }
            assert forall|i: int| 0 <= i < after.len() implies entry_wf(#[trigger] after[i]) by {
                if i < old_users.len() {
                    assert(old_users[i] == after[i]);
                }
            }
            lemma_entry_of(after, name, after.len() - 1);
            lemma_push_others(old_users, after, e, name);
        }
        true
    }

    /// Adds `pin` to `username`'s collection under the next id of that user.
    /// Fails, changing nothing, for an unknown user (`UserNotFound`), a pin
    /// without a URL or whose first URL is blank after trimming (`MissingUrl`),
    /// a first URL that normalizes like any URL of a pin already stored
    /// (`DuplicateUrl` with that pin's id), or
    /// an exhausted id counter (`StorageFailure`).
    pub fn add_pin(&mut self, username: &str, pin: Pin) -> (r: Result<u64, PinError>)
        requires
            old(self).wf(),
        ensures
            final(self).wf(),
            add_post(old(self).entries(), final(self).entries(), username@, pin, r),
    {
        let i = match self.find(username) {
            None => {
                return Err(PinError::UserNotFound);
            },
            Some(i) => i,
        };
        proof {
            lemma_entry_of(self.users@, username@, i as int);
        }
        if pin.urls.len() == 0 {
            return Err(PinError::MissingUrl);
        }
        let blank = trimmed(&chars_of(pin.urls[0].as_str()));
        if blank.len() == 0 {
            return Err(PinError::MissingUrl);
        }
        let key = normalize_url(pin.urls[0].as_str());
        let n = self.users[i].pins.len();
        let mut k: usize = 0;
        while k < n
            invariant
                0 <= k <= n,
                i < self.users@.len(),
                self.wf(),
                self.users@ == old(self).users@,
                has_name(self.users@, username@),
                pins_of(self.users@, username@) == self.users@[i as int].pins@,
                n == self.users@[i as int].pins@.len(),
                entry_wf(self.users@[i as int]),
                key@ == primary_url(pin),
                !missing_url(pin),
                forall|j: int|
                    0 <= j < k ==> !holds_url(#[trigger] self.users@[i as int].pins@[j], key@),
            decreases n - k,
        {
            let p = &self.users[i].pins[k];
            if pin_holds(p, &key) {
                return Err(PinError::DuplicateUrl(p.id));
            }
            k = k + 1;
        }
        let id = self.users[i].next_id;
        if id == u64::MAX {
            return Err(PinError::StorageFailure);
        }
        let ghost old_users = self.users@;
        let ghost old_e = old_users[i as int];
        let mut entry = self.users.remove(i);
        let mut p = pin;
        p.id = id;
        assert(p == with_id(pin, id));
        entry.pins.push(p);
        entry.next_id = id + 1;
        let ghost e = entry;
        self.users.insert(i, entry);
        proof {
            let after = self.users@;
            assert(after =~= old_users.update(i as int, e));
            let ps = e.pins@;
            assert(ps == old_e.pins@.push(p));
            assert forall|a: int, b: int| 0 <= a < b < ps.len() implies !holds_url(
                #[trigger] ps[a], primary_url(#[trigger] ps[b])) by {
                assert(ps[a] == old_e.pins@[a]);
                if b < old_e.pins@.len() {
                    assert(ps[b] == old_e.pins@[b]);
                }
            }
            assert forall|a: int, b: int| 0 <= a < b < ps.len() implies (#[trigger] ps[a]).id < (
            #[trigger] ps[b]).id by {
                assert(ps[a] == old_e.pins@[a]);
                if b < old_e.pins@.len() {
                    assert(ps[b] == old_e.pins@[b]);
                }
            }
            assert forall|a: int| 0 <= a < ps.len() implies (#[trigger] ps[a]).id < e.next_id by {
                if a < old_e.pins@.len() {
                    assert(ps[a] == old_e.pins@[a]);
                }
            }
            assert forall|a: int| 0 <= a < ps.len() implies (#[trigger] ps[a]).urls@.len()
                > 0 by {
                if a < old_e.pins@.len() {
                    assert(ps[a] == old_e.pins@[a]);
                }
            }
            assert(entry_wf(e));
            assert forall|a: int| 0 <= a < after.len() implies entry_wf(#[trigger] after[a]) by {
                if a != i {
                    assert(after[a] == old_users[a]);
                }
            }
            assert forall|a: int, b: int|
                0 <= a < after.len() && 0 <= b < after.len() && a != b implies (
                #[trigger] after[a]).username@ != (#[trigger] after[b]).username@ by {
                assert(old_users[a].username@ == after[a].username@);
                assert(old_users[b].username@ == after[b].username@);
            }
            lemma_entry_of(after, username@, i as int);
            lemma_update_others(old_users, after, i as int, username@);
        }
        Ok(id)
    }

    /// The pins of `username` in insertion order, empty when there are none;
    /// `UserNotFound` for an unknown user.
    pub fn list_pins(&self, username: &str) -> (r: Result<&Vec<Pin>, PinError>)
        requires
            self.wf(),
        ensures
            r is Ok <==> has_name(self.entries(), username@),
            r matches Ok(v) ==> v@ == pins_of(self.entries(), username@),
            r is Err ==> r == Err::<&Vec<Pin>, PinError>(PinError::UserNotFound),
    {
        match self.find(username) {
            None => Err(PinError::UserNotFound),
            Some(i) => {
                proof {
                    lemma_entry_of(self.users@, username@, i as int);
                }
                Ok(&self.users[i].pins)
            },
        }
    }

    /// The ids of `username`'s pins that answer `query`, in insertion order;
    /// `UserNotFound` for an unknown user. Each call scans the collection anew.
    pub fn search_pins(&self, username: &str, query: &str) -> (r: Result<Vec<u64>, PinError>)
        requires
            self.wf(),
        ensures
            r is Ok <==> has_name(self.entries(), username@),
            r matches Ok(ids) ==> ids@ == matching_ids(pins_of(self.entries(), username@), query@),
            r is Err ==> r == Err::<Vec<u64>, PinError>(PinError::UserNotFound),
    {
        let i = match self.find(username) {
            None => {
                return Err(PinError::UserNotFound);
            },
            Some(i) => i,
        };
        proof {
            lemma_entry_of(self.users@, username@, i as int);
        }
        let q = query.to_owned();
        let lq = chars_of(lowercase(query).as_str());
        let pins = &self.users[i].pins;
        let mut ids: Vec<u64> = Vec::new();
        let mut k: usize = 0;
        while k < pins.len()
            invariant
                0 <= k <= pins@.len(),
                q@ == query@,
                lq@ == lower_of(query@),
                ids@ == matching_ids(pins@.subrange(0, k as int), query@),
            decreases pins@.len() - k,
        {
            let ghost prefix = pins@.subrange(0, k + 1);
            assert(prefix.drop_last() =~= pins@.subrange(0, k as int));
            if pin_answers(&pins[k], &q, &lq) {
                ids.push(pins[k].id);
            }
            k = k + 1;
        }
        assert(pins@.subrange(0, pins@.len() as int) =~= pins@);
        Ok(ids)
    }

    fn find(&self, name: &str) -> (r: Option<usize>)
        requires
            self.wf(),
        ensures
            r is None <==> !has_name(self.entries(), name@),
            r matches Some(i) ==> i < self.entries().len() && self.entries()[i as int].username@
                == name@,
    {
        let key = name.to_owned();
        let mut i: usize = 0;
        while i < self.users.len()
            invariant
                0 <= i <= self.users@.len(),
                key@ == name@,
                forall|k: int| 0 <= k < i ==> (#[trigger] self.users@[k]).username@ != name@,
            decreases self.users@.len() - i,
        {
            if self.users[i].username == key {
                return Some(i);
            }
            i = i + 1;
        }
        None
    }
}

/// Adding a pin whose URL normalizes like one just added for the same user
/// fails with `DuplicateUrl`, naming the earlier pin, and stores nothing.
pub proof fn lemma_duplicate_url_refused(
    s0: Seq<UserPins>,
    s1: Seq<UserPins>,
    s2: Seq<UserPins>,
    name: Seq<char>,
    first: Pin,
    second: Pin,
    id: u64,
    r: Result<u64, PinError>,
)
    requires
        entries_wf(s1),
        add_post(s0, s1, name, first, Ok(id)),
        add_post(s1, s2, name, second, r),
        !missing_url(second),
        primary_url(second) == primary_url(first),
    ensures
        r == Err::<u64, PinError>(PinError::DuplicateUrl(id)),
        s2 == s1,
{
    let ps = pins_of(s1, name);
    let last = ps.len() - 1;
    assert(ps[last] == with_id(first, id));
    assert(primary_url(ps[last]) == primary_url(first));
    assert(ps[last].urls@[0] == first.urls@[0]);
    assert(holds_url(ps[last], primary_url(second)));
    assert(url_taken(ps, primary_url(second)));
    let i = entry_of(s1, name);
    assert(entry_wf(s1[i]));
    let k = choose|k: int|
        0 <= k < ps.len() && holds_url(#[trigger] ps[k], primary_url(second)) && r == Err::<
            u64,
            PinError,
        >(PinError::DuplicateUrl(ps[k].id));
    if k < last {
        assert(!holds_url(ps[k], primary_url(ps[last])));
    }
    assert(k == last);
}

/// Two pins added one after the other for the same user, neither URL already
/// stored and the second's not among the first's, are both kept, in order,
/// under consecutive ids: no update is lost.
pub proof fn lemma_two_adds_both_kept(
    s0: Seq<UserPins>,
    s1: Seq<UserPins>,
    s2: Seq<UserPins>,
    name: Seq<char>,
    first: Pin,
    second: Pin,
    r1: Result<u64, PinError>,
    r2: Result<u64, PinError>,
)
    requires
        entries_wf(s1),
        add_post(s0, s1, name, first, r1),
        add_post(s1, s2, name, second, r2),
        has_name(s0, name),
        !missing_url(first),
        !missing_url(second),
        !holds_url(first, primary_url(second)),
        !url_taken(pins_of(s0, name), primary_url(first)),
        !url_taken(pins_of(s0, name), primary_url(second)),
        next_id_of(s0, name) < u64::MAX - 1,
    ensures
        r1 == Ok::<u64, PinError>(next_id_of(s0, name)),
        r2 == Ok::<u64, PinError>((next_id_of(s0, name) + 1) as u64),
        pins_of(s2, name) == pins_of(s0, name).push(with_id(first, next_id_of(s0, name))).push(
            with_id(second, (next_id_of(s0, name) + 1) as u64),
        ),
{
    let p0 = pins_of(s0, name);
    let ps = pins_of(s1, name);
    assert(ps == p0.push(with_id(first, next_id_of(s0, name))));
    assert(!url_taken(ps, primary_url(second))) by {
        if url_taken(ps, primary_url(second)) {
            let k = choose|k: int| 0 <= k < ps.len() && holds_url(#[trigger] ps[k], primary_url(second));
            if k < p0.len() {
                assert(ps[k] == p0[k]);
            } else {
                assert(ps[k] == with_id(first, next_id_of(s0, name)));
            }
        }
    }
}

/// A user who has just been registered lists an empty collection.
pub proof fn lemma_new_user_lists_nothing(
    s0: Seq<UserPins>,
    s1: Seq<UserPins>,
    name: Seq<char>,
)
    requires
        !has_name(s0, name),
        has_name(s1, name),
        pins_of(s1, name) == pins_of(s0, name),
    ensures
        pins_of(s1, name) == Seq::<Pin>::empty(),
{
}

} // verus!
