//! The event registry: an in-memory store of events keyed by id, together
//! with a secondary index from event names to the ids that carry them.

use vstd::prelude::*;
use vstd::pervasive::VecAdditionalExecFns;
use vstd::seq_lib::lemma_seq_contains_after_push;
use vstd::string::StringExecFns;

verus! {

/// The errors the registry reports. `DatabaseError` is reserved for hosts
/// that guard a shared registry with a lock and find that guard poisoned;
/// the registry itself never returns it.
#[derive(Debug, PartialEq)]
pub enum EventManagementError {
    EventNotFound,
    DuplicateEvent,
    AttendeeError(String),
    DatabaseError,
}

impl Clone for EventManagementError {
    /// A clone is the very same error, message text included.
    fn clone(&self) -> (r: Self)
        ensures
            r == *self,
    {
        match self {
            EventManagementError::EventNotFound => EventManagementError::EventNotFound,
            EventManagementError::DuplicateEvent => EventManagementError::DuplicateEvent,
            EventManagementError::AttendeeError(m) => EventManagementError::AttendeeError(
                m.clone(),
            ),
            EventManagementError::DatabaseError => EventManagementError::DatabaseError,
        }
    }
}

/// An event record: a caller-assigned id, a mutable name, and the attendees
/// in order of registration, free of duplicates.
#[derive(Debug)]
pub struct Event {
    pub id: u32,
    pub name: String,
    pub attendees: Vec<String>,
}

/// The mathematical content of an [`Event`], minus the id (the registry's
/// map carries the id as the key).
#[verifier::ext_equal]
pub struct EventRecord {
    pub name: Seq<char>,
    pub attendees: Seq<Seq<char>>,
}

impl View for Event {
    type V = EventRecord;

    open spec fn view(&self) -> EventRecord {
        EventRecord { name: self.name@, attendees: self.attendees.deep_view() }
    }
}

/// The record a freshly created event carries: the given name, no attendees.
pub open spec fn fresh_record(name: Seq<char>) -> EventRecord {
    EventRecord { name, attendees: Seq::empty() }
}

/// One slot of the secondary index: a name and the ids of the events that
/// currently carry it. A slot whose `ids` is empty may linger after renames
/// and deletions; lookups treat it as "no match".
struct NameEntry {
    name: String,
    ids: Vec<u32>,
}

/// No two events in `s` share an id.
pub open spec fn ids_unique(s: Seq<Event>) -> bool {
    forall|i: int, j: int| 0 <= i < j < s.len() ==> s[i].id != s[j].id
}

spec fn seq_has(s: Seq<Event>, id: u32) -> bool {
    exists|i: int| 0 <= i < s.len() && s[i].id == id
}

spec fn seq_at(s: Seq<Event>, id: u32) -> int {
    choose|i: int| 0 <= i < s.len() && s[i].id == id
}

/// Some event in `s` has this id and this name.
spec fn event_with_name(s: Seq<Event>, id: u32, name: Seq<char>) -> bool {
    exists|i: int| 0 <= i < s.len() && s[i].id == id && s[i].name@ == name
}

spec fn names_unique(s: Seq<NameEntry>) -> bool {
    forall|i: int, j: int| 0 <= i < j < s.len() ==> s[i].name@ != s[j].name@
}

spec fn u32s_unique(s: Seq<u32>) -> bool {
    forall|i: int, j: int| 0 <= i < j < s.len() ==> s[i] != s[j]
}

spec fn entries_ids_unique(s: Seq<NameEntry>) -> bool {
    forall|i: int| 0 <= i < s.len() ==> u32s_unique(#[trigger] s[i].ids@)
}

/// The index relation: `id` is filed under `name` in the index `s`.
spec fn index_maps(s: Seq<NameEntry>, name: Seq<char>, id: u32) -> bool {
    exists|i: int| 0 <= i < s.len() && s[i].name@ == name && #[trigger] s[i].ids@.contains(id)
}

/// In a store free of duplicate ids, the witness position of an id is the
/// only one, so `seq_at` lands exactly on it.
proof fn lemma_seq_at(s: Seq<Event>, i: int)
    requires
        ids_unique(s),
        0 <= i < s.len(),
    ensures
        seq_has(s, s[i].id),
        seq_at(s, s[i].id) == i,
{
    assert(seq_has(s, s[i].id));
    let j = seq_at(s, s[i].id);
    assert(0 <= j < s.len() && s[j].id == s[i].id);
    if j < i {
        assert(s[j].id != s[i].id);
    } else if i < j {
        assert(s[i].id != s[j].id);
    }
}

/// Find the position of an id in the primary store, if it is there.
fn find_event_index(events: &Vec<Event>, id: u32) -> (r: Option<usize>)
    ensures
        match r {
            Some(j) => j < events@.len() && events@[j as int].id == id,
            None => !seq_has(events@, id),
        },
{
    let mut i: usize = 0;
    while i < events.len()
        invariant
            i <= events@.len(),
            forall|k: int| 0 <= k < i ==> events@[k].id != id,
        decreases events@.len() - i,
    {
        if events[i].id == id {
            return Some(i);
        }
        i = i + 1;
    }
    None
}

/// Find the index slot that carries this name, if any does.
fn find_name_entry(index: &Vec<NameEntry>, name: &String) -> (r: Option<usize>)
    ensures
        match r {
            Some(j) => j < index@.len() && index@[j as int].name@ == name@,
            None => forall|i: int| 0 <= i < index@.len() ==> index@[i].name@ != name@,
        },
{
    let mut i: usize = 0;
    while i < index.len()
        invariant
            i <= index@.len(),
            forall|k: int| 0 <= k < i ==> index@[k].name@ != name@,
        decreases index@.len() - i,
    {
        if index[i].name == *name {
            return Some(i);
        }
        i = i + 1;
    }
    None
}

/// Find the position of an id within one slot's id list, if it is there.
fn find_id_position(ids: &Vec<u32>, id: u32) -> (r: Option<usize>)
    ensures
        match r {
            Some(k) => k < ids@.len() && ids@[k as int] == id,
            None => !ids@.contains(id),
        },
{
    let mut i: usize = 0;
    while i < ids.len()
        invariant
            i <= ids@.len(),
            forall|k: int| 0 <= k < i ==> ids@[k] != id,
        decreases ids@.len() - i,
    {
        if ids[i] == id {
            return Some(i);
        }
        i = i + 1;
    }
    None
}

/// Copy a list of attendees, text for text.
fn copy_strings(v: &Vec<String>) -> (r: Vec<String>)
    ensures
        r.deep_view() == v.deep_view(),
{
    let mut r: Vec<String> = Vec::new();
    let mut i: usize = 0;
    while i < v.len()
        invariant
            i <= v@.len(),
            r@.len() == i,
            forall|k: int| 0 <= k < i ==> r@[k] == v@[k],
        decreases v@.len() - i,
    {
        r.push(v[i].clone());
        i = i + 1;
    }
    proof {
        assert(r.deep_view() =~= v.deep_view());
    }
    r
}

impl Clone for Event {
    /// A clone reads back identically: the same id and the same record.
    fn clone(&self) -> (r: Self)
        ensures
            r.id == self.id,
            r@ == self@,
    {
        let r = Event {
            id: self.id,
            name: self.name.clone(),
            attendees: copy_strings(&self.attendees),
        };
        proof {
            assert(r@ =~~= self@);
        }
        r
    }
}

/// Is some element of `v` the same text as `who`?
fn contains_string(v: &Vec<String>, who: &String) -> (r: bool)
    ensures
        r == v.deep_view().contains(who@),
{
    let mut i: usize = 0;
    while i < v.len()
        invariant
            i <= v@.len(),
            forall|k: int| 0 <= k < i ==> v.deep_view()[k] != who@,
        decreases v@.len() - i,
    {
        if v[i] == *who {
            proof {
                assert(v.deep_view()[i as int] == who@);
            }
            return true;
        }
        i = i + 1;
    }
    proof {
        if v.deep_view().contains(who@) {
            let k = choose|k: int| 0 <= k < v.deep_view().len() && v.deep_view()[k] == who@;
            assert(v.deep_view()[k] != who@);
        }
    }
    false
}

/// File `id` under `name`, growing the slot for `name` (or creating it).
/// The id must not be filed anywhere yet.
fn index_add(index: &mut Vec<NameEntry>, name: &String, id: u32)
    requires
        names_unique(old(index)@),
        entries_ids_unique(old(index)@),
        forall|n: Seq<char>| !index_maps(old(index)@, n, id),
    ensures
        names_unique(final(index)@),
        entries_ids_unique(final(index)@),
        forall|n: Seq<char>, x: u32|
            index_maps(final(index)@, n, x) <==> (index_maps(old(index)@, n, x) || (n == name@
                && x == id)),
{
    broadcast use lemma_seq_contains_after_push;

    let ghost old_index = index@;
    match find_name_entry(index, name) {
        Some(j) => {
            let ghost jj = j as int;
            let mut entry = NameEntry { name: String::new(), ids: Vec::new() };
            index.set_and_swap(j, &mut entry);
            proof {
                assert(entry == old_index[jj]);
                // the slot for `name` does not hold `id` yet
                assert(!old_index[jj].ids@.contains(id)) by {
                    if old_index[jj].ids@.contains(id) {
                        assert(index_maps(old_index, name@, id));
                    }
                }
            }
            entry.ids.push(id);
            index.set(j, entry);
            proof {
                let ni = index@;
                assert(ni =~= old_index.update(jj, ni[jj]));
                assert(ni[jj].name@ == name@);
                assert(ni[jj].ids@ == old_index[jj].ids@.push(id));
                assert forall|n: Seq<char>, x: u32| index_maps(ni, n, x) implies (index_maps(
                    old_index,
                    n,
                    x,
                ) || (n == name@ && x == id)) by {
                    let i = choose|i: int|
                        0 <= i < ni.len() && ni[i].name@ == n && #[trigger] ni[i].ids@.contains(x);
                    if i == jj {
                        if x != id {
                            assert(old_index[jj].ids@.contains(x));
                            assert(index_maps(old_index, n, x));
                        }
                    } else {
                        assert(old_index[i].ids@.contains(x));
                        assert(index_maps(old_index, n, x));
                    }
                }
                assert forall|n: Seq<char>, x: u32| (index_maps(old_index, n, x) || (n == name@
                    && x == id)) implies index_maps(ni, n, x) by {
                    if index_maps(old_index, n, x) {
                        let i = choose|i: int|
                            0 <= i < old_index.len() && old_index[i].name@ == n
                                && #[trigger] old_index[i].ids@.contains(x);
                        if i == jj {
                            assert(ni[jj].ids@.contains(x));
                        } else {
                            assert(ni[i].ids@.contains(x));
                        }
                    } else {
                        assert(ni[jj].ids@.contains(x));
                    }
                }
                assert(names_unique(ni)) by {
                    assert forall|a: int| 0 <= a < ni.len() implies ni[a].name@ == old_index[a].name@
                        by {}
                }
                assert(entries_ids_unique(ni)) by {
                    assert forall|i: int| 0 <= i < ni.len() implies u32s_unique(
                        #[trigger] ni[i].ids@,
                    ) by {
                        if i == jj {
                            let s = old_index[jj].ids@;
                            assert forall|a: int, b: int|
                                0 <= a < b < s.push(id).len() implies s.push(id)[a] != s.push(
                                id,
                            )[b] by {
                                if b < s.len() {
                                    assert(u32s_unique(s));
                                } else {
                                    assert(s.push(id)[a] == s[a]);
                                    assert(s.contains(s[a]));
                                }
                            }
                        }
                    }
                }
            }
        },
        None => {
            let mut ids: Vec<u32> = Vec::new();
            ids.push(id);
            let entry = NameEntry { name: name.clone(), ids };
            index.push(entry);
            proof {
                let ni = index@;
                assert(ni[old_index.len() as int].ids@ == Seq::<u32>::empty().push(id));
                assert(ni[old_index.len() as int].ids@.contains(id));
                assert forall|n: Seq<char>, x: u32| index_maps(ni, n, x) implies (index_maps(
                    old_index,
                    n,
                    x,
                ) || (n == name@ && x == id)) by {
                    let i = choose|i: int|
                        0 <= i < ni.len() && ni[i].name@ == n && #[trigger] ni[i].ids@.contains(x);
                    if i < old_index.len() {
                        assert(old_index[i].ids@.contains(x));
                        assert(index_maps(old_index, n, x));
                    } else {
                        assert(ni[i].ids@ == Seq::<u32>::empty().push(id));
                        assert(x == id && n == name@);
                    }
                }
                assert forall|n: Seq<char>, x: u32| (index_maps(old_index, n, x) || (n == name@
                    && x == id)) implies index_maps(ni, n, x) by {
                    if index_maps(old_index, n, x) {
                        let i = choose|i: int|
                            0 <= i < old_index.len() && old_index[i].name@ == n
                                && #[trigger] old_index[i].ids@.contains(x);
                        assert(ni[i].ids@.contains(x));
                    } else {
                        assert(ni[old_index.len() as int].ids@.contains(x));
                    }
                }
                assert(names_unique(ni)) by {
                    assert forall|a: int, b: int| 0 <= a < b < ni.len() implies ni[a].name@
                        != ni[b].name@ by {
                        if b == old_index.len() {
                            assert(old_index[a].name@ != name@);
                        } else {
                            assert(old_index[a].name@ != old_index[b].name@);
                        }
                    }
                }
                assert(entries_ids_unique(ni)) by {
                    assert forall|i: int| 0 <= i < ni.len() implies u32s_unique(
                        #[trigger] ni[i].ids@,
                    ) by {
                        if i == old_index.len() {
                            assert(ni[i].ids@ == Seq::<u32>::empty().push(id));
                        }
                    }
                }
            }
        },
    }
}

/// Unfile the pair of `name` and `id`, which must be filed, leaving the
/// slot for `name` in place (possibly empty). Every other pair stays.
fn index_remove(index: &mut Vec<NameEntry>, name: &String, id: u32)
    requires
        names_unique(old(index)@),
        entries_ids_unique(old(index)@),
        index_maps(old(index)@, name@, id),
    ensures
        names_unique(final(index)@),
        entries_ids_unique(final(index)@),
        forall|n: Seq<char>, x: u32|
            index_maps(final(index)@, n, x) <==> (index_maps(old(index)@, n, x) && !(n == name@
                && x == id)),
{
    let ghost old_index = index@;
    match find_name_entry(index, name) {
        Some(j) => {
            let ghost jj = j as int;
            let mut entry = NameEntry { name: String::new(), ids: Vec::new() };
            index.set_and_swap(j, &mut entry);
            proof {
                assert(entry == old_index[jj]);
                // `id` sits in this very slot: the filed slot carries `name`,
                // and only one slot does
                assert(old_index[jj].ids@.contains(id)) by {
                    let i = choose|i: int|
                        0 <= i < old_index.len() && old_index[i].name@ == name@
                            && #[trigger] old_index[i].ids@.contains(id);
                    if i < jj {
                        assert(old_index[i].name@ != old_index[jj].name@);
                    } else if jj < i {
                        assert(old_index[jj].name@ != old_index[i].name@);
                    }
                }
            }
            match find_id_position(&entry.ids, id) {
                Some(k) => {
                    let ghost kk = k as int;
                    let ghost s = entry.ids@;
                    entry.ids.remove(k);
                    proof {
                        let t = entry.ids@;
                        assert(t == s.remove(kk));
                        assert forall|a: int| 0 <= a < t.len() implies t[a] == (if a < kk {
                            s[a]
                        } else {
                            s[a + 1]
                        }) by {}
                        assert(u32s_unique(s));
                        // what is left is everything but `id`
                        assert forall|x: u32| #[trigger] t.contains(x) implies s.contains(x) && x
                            != id by {
                            let a = choose|a: int| 0 <= a < t.len() && t[a] == x;
                            let b = if a < kk { a } else { a + 1 };
                            assert(s[b] == x);
                            if b < kk {
                                assert(s[b] != s[kk]);
                            } else {
                                assert(s[kk] != s[b]);
                            }
                        }
                        assert forall|x: u32| s.contains(x) && x != id implies #[trigger] t.contains(
                            x,
                        ) by {
                            let b = choose|b: int| 0 <= b < s.len() && s[b] == x;
                            if b < kk {
                                assert(t[b] == x);
                            } else if b == kk {
                                assert(false);
                            } else {
                                assert(t[b - 1] == x);
                            }
                        }
                        assert(u32s_unique(t)) by {
                            assert forall|a: int, b: int| 0 <= a < b < t.len() implies t[a]
                                != t[b] by {
                                let a2 = if a < kk { a } else { a + 1 };
                                let b2 = if b < kk { b } else { b + 1 };
                                assert(t[a] == s[a2] && t[b] == s[b2]);
                                assert(s[a2] != s[b2]);
                            }
                        }
                    }
                    index.set(j, entry);
                    proof {
                        let ni = index@;
                        let s = old_index[jj].ids@;
                        let t = ni[jj].ids@;
                        assert(ni =~= old_index.update(jj, ni[jj]));
                        assert(ni[jj].name@ == name@);
                        assert(names_unique(ni)) by {
                            assert forall|a: int| 0 <= a < ni.len() implies ni[a].name@
                                == old_index[a].name@ by {}
                        }
                        assert(entries_ids_unique(ni)) by {
                            assert forall|i: int| 0 <= i < ni.len() implies u32s_unique(
                                #[trigger] ni[i].ids@,
                            ) by {
                                if i != jj {
                                    assert(u32s_unique(old_index[i].ids@));
                                }
                            }
                        }
                        assert forall|n: Seq<char>, x: u32|
                            index_maps(ni, n, x) implies (index_maps(old_index, n, x) && !(n
                            == name@ && x == id)) by {
                            let i = choose|i: int|
                                0 <= i < ni.len() && ni[i].name@ == n && #[trigger] ni[i].ids@
                                    .contains(x);
                            if i == jj {
                                assert(s.contains(x) && x != id);
                                assert(index_maps(old_index, n, x));
                            } else {
                                assert(old_index[i].ids@.contains(x));
                                assert(index_maps(old_index, n, x));
                                if n == name@ {
                                    if i < jj {
                                        assert(old_index[i].name@ != old_index[jj].name@);
                                    } else {
                                        assert(old_index[jj].name@ != old_index[i].name@);
                                    }
                                }
                            }
                        }
                        assert forall|n: Seq<char>, x: u32|
                            index_maps(old_index, n, x) && !(n == name@ && x == id) implies
                        index_maps(ni, n, x) by {
                            let i = choose|i: int|
                                0 <= i < old_index.len() && old_index[i].name@ == n
                                    && #[trigger] old_index[i].ids@.contains(x);
                            if i == jj {
                                assert(x != id);
                                assert(t.contains(x));
                                assert(ni[jj].ids@.contains(x));
                            } else {
                                assert(ni[i].ids@.contains(x));
                            }
                        }
                    }
                },
                None => {
                    // the filed id sits in this slot, so the search cannot miss
                    proof {
                        assert(false);
                    }
                    vstd::pervasive::unreached()
                },
            }
        },
        None => {
            // a filed pair names a slot, so the search cannot miss
            proof {
                let i = choose|i: int|
                    0 <= i < old_index.len() && old_index[i].name@ == name@
                        && #[trigger] old_index[i].ids@.contains(id);
                assert(false);
            }
            vstd::pervasive::unreached()
        },
    }
}

/// The registry. `events` is the primary store (ids unique); `name_index`
/// files every stored id under exactly the name its event carries.
pub struct EventManager {
    events: Vec<Event>,
    name_index: Vec<NameEntry>,
}

impl View for EventManager {
    type V = Map<u32, EventRecord>;

    /// A registry is viewed as the map from each stored id to its record.
    closed spec fn view(&self) -> Map<u32, EventRecord> {
        Map::new(
            |id: u32| seq_has(self.events@, id),
            |id: u32| self.events@[seq_at(self.events@, id)]@,
        )
    }
}

impl EventManager {
    /// Well-formedness: unique ids, unique index names, duplicate-free id
    /// lists, and the two directions that keep store and index in step:
    /// every filed id belongs to an event of that very name, and every
    /// event is filed under its name.
    pub closed spec fn wf(&self) -> bool {
        &&& ids_unique(self.events@)
        &&& names_unique(self.name_index@)
        &&& entries_ids_unique(self.name_index@)
        &&& forall|n: Seq<char>, id: u32|
            index_maps(self.name_index@, n, id) ==> event_with_name(self.events@, id, n)
        &&& forall|j: int|
            0 <= j < self.events@.len() ==> index_maps(
                self.name_index@,
                (#[trigger] self.events@[j]).name@,
                self.events@[j].id,
            )
    }

    /// A new registry holds nothing.
    pub fn new() -> (r: EventManager)
        ensures
            r.wf(),
            r@ == Map::<u32, EventRecord>::empty(),
    {
        let r = EventManager { events: Vec::new(), name_index: Vec::new() };
        proof {
            assert(r@ =~= Map::<u32, EventRecord>::empty());
        }
        r
    }

    /// Insert a fresh event with no attendees and file its id under `name`;
    /// reject an id that is already taken, changing nothing.
    pub fn create_event(&mut self, id: u32, name: &str) -> (r: Result<(), EventManagementError>)
        requires
            old(self).wf(),
        ensures
            final(self).wf(),
            match r {
                Ok(()) => !old(self)@.contains_key(id) && final(self)@ == old(self)@.insert(
                    id,
                    fresh_record(name@),
                ),
                Err(e) => e == EventManagementError::DuplicateEvent && old(self)@.contains_key(id)
                    && final(self)@ == old(self)@,
            },
    {
        match find_event_index(&self.events, id) {
            Some(_) => Err(EventManagementError::DuplicateEvent),
            None => {
                let ghost old_events = self.events@;
                let name_string = String::from_str(name);
                proof {
                    // a fresh id is filed nowhere in the index
                    assert forall|n: Seq<char>| !index_maps(self.name_index@, n, id) by {
                        if index_maps(self.name_index@, n, id) {
                            assert(event_with_name(old_events, id, n));
                        }
                    }
                }
                index_add(&mut self.name_index, &name_string, id);
                let ev = Event { id, name: name_string, attendees: Vec::new() };
                self.events.push(ev);
                proof {
                    let ne = self.events@;
                    let ll = old_events.len() as int;
                    assert(ne[ll]@ =~~= fresh_record(name@));
                    assert(ids_unique(ne)) by {
                        assert forall|i: int, j: int| 0 <= i < j < ne.len() implies ne[i].id
                            != ne[j].id by {
                            if j == ll {
                                assert(!(0 <= i < old_events.len() && old_events[i].id == id));
                            }
                        }
                    }
                    assert forall|n: Seq<char>, x: u32|
                        index_maps(self.name_index@, n, x) implies event_with_name(ne, x, n) by {
                        if n == name@ && x == id {
                            assert(ne[ll].id == id && ne[ll].name@ == name@);
                        } else {
                            assert(index_maps(old(self).name_index@, n, x));
                            let i = choose|i: int|
                                0 <= i < old_events.len() && old_events[i].id == x
                                    && old_events[i].name@ == n;
                            assert(ne[i].id == x && ne[i].name@ == n);
                        }
                    }
                    assert forall|j: int| 0 <= j < ne.len() implies index_maps(
                        self.name_index@,
                        (#[trigger] ne[j]).name@,
                        ne[j].id,
                    ) by {
                        if j < ll {
                            assert(index_maps(old(self).name_index@, ne[j].name@, ne[j].id));
                        }
                    }
                    // the view gains exactly the one fresh entry
                    assert forall|x: u32| #[trigger]
                        seq_has(ne, x) implies (seq_has(old_events, x) || x == id) by {
                        let i = choose|i: int| 0 <= i < ne.len() && ne[i].id == x;
                        if i < ll {
                            assert(old_events[i].id == x);
                        }
                    }
                    assert forall|x: u32| seq_has(old_events, x) implies #[trigger] seq_has(ne, x)
                        && ne[seq_at(ne, x)]@ == old_events[seq_at(old_events, x)]@ by {
                        let i = seq_at(old_events, x);
                        assert(0 <= i < old_events.len() && old_events[i].id == x);
                        assert(ne[i].id == x);
                        lemma_seq_at(old_events, i);
                        lemma_seq_at(ne, i);
                    }
                    lemma_seq_at(ne, ll);
                    assert(self@ =~~= old(self)@.insert(id, fresh_record(name@)));
                }
                Ok(())
            },
        }
    }

    /// Rename an event: the store takes the new name, the id moves from the
    /// old name's index slot to the new name's. Attendees are untouched.
    pub fn update_event(&mut self, id: u32, new_name: &str) -> (r: Result<
        (),
        EventManagementError,
    >)
        requires
            old(self).wf(),
        ensures
            final(self).wf(),
            match r {
                Ok(()) => old(self)@.contains_key(id) && final(self)@ == old(self)@.insert(
                    id,
                    EventRecord { name: new_name@, attendees: old(self)@[id].attendees },
                ),
                Err(e) => e == EventManagementError::EventNotFound && !old(self)@.contains_key(id)
                    && final(self)@ == old(self)@,
            },
    {
        match find_event_index(&self.events, id) {
            None => Err(EventManagementError::EventNotFound),
            Some(j) => {
                let ghost old_events = self.events@;
                let ghost old_index = self.name_index@;
                let ghost jj = j as int;
                proof {
                    lemma_seq_at(old_events, jj);
                }
                let mut ev = Event { id: 0, name: String::new(), attendees: Vec::new() };
                self.events.set_and_swap(j, &mut ev);
                let old_name = ev.name;
                ev.name = String::from_str(new_name);
                proof {
                    assert(index_maps(old_index, old_name@, id));
                }
                index_remove(&mut self.name_index, &old_name, id);
                proof {
                    // after unfiling, the id is filed nowhere: it was filed
                    // only under its event's name
                    assert forall|n: Seq<char>| !index_maps(self.name_index@, n, id) by {
                        if index_maps(self.name_index@, n, id) {
                            assert(index_maps(old_index, n, id));
                            assert(event_with_name(old_events, id, n));
                            let i = choose|i: int|
                                0 <= i < old_events.len() && old_events[i].id == id
                                    && old_events[i].name@ == n;
                            lemma_seq_at(old_events, i);
                        }
                    }
                }
                index_add(&mut self.name_index, &ev.name, id);
                self.events.set(j, ev);
                proof {
                    let ne = self.events@;
                    let ni = self.name_index@;
                    assert forall|a: int| 0 <= a < ne.len() implies ne[a].id
                        == old_events[a].id by {}
                    assert(ids_unique(ne));
                    assert(ne[jj].name@ == new_name@ && ne[jj].attendees == old_events[jj].attendees);
                    assert forall|n: Seq<char>, x: u32| index_maps(ni, n, x) implies
                    event_with_name(ne, x, n) by {
                        if n == new_name@ && x == id {
                            assert(ne[jj].id == id && ne[jj].name@ == n);
                        } else {
                            assert(index_maps(old_index, n, x) && !(n == old_name@ && x == id));
                            if x == id {
                                assert(event_with_name(old_events, id, n));
                                let i = choose|i: int|
                                    0 <= i < old_events.len() && old_events[i].id == id
                                        && old_events[i].name@ == n;
                                lemma_seq_at(old_events, i);
                                assert(false);
                            } else {
                                let i = choose|i: int|
                                    0 <= i < old_events.len() && old_events[i].id == x
                                        && old_events[i].name@ == n;
                                assert(i != jj);
                                assert(ne[i].id == x && ne[i].name@ == n);
                            }
                        }
                    }
                    assert forall|a: int| 0 <= a < ne.len() implies index_maps(
                        ni,
                        (#[trigger] ne[a]).name@,
                        ne[a].id,
                    ) by {
                        if a == jj {
                            assert(index_maps(ni, new_name@, id));
                        } else {
                            assert(index_maps(old_index, old_events[a].name@, old_events[a].id));
                            assert(old_events[a].id != id);
                            assert(ne[a] == old_events[a]);
                        }
                    }
                    // the view: only the record under `id` changes, to the
                    // renamed one
                    assert forall|x: u32| #[trigger] seq_has(ne, x) == seq_has(old_events, x) by {
                        if seq_has(ne, x) {
                            let i = choose|i: int| 0 <= i < ne.len() && ne[i].id == x;
                            assert(old_events[i].id == x);
                        }
                        if seq_has(old_events, x) {
                            let i = choose|i: int|
                                0 <= i < old_events.len() && old_events[i].id == x;
                            assert(ne[i].id == x);
                        }
                    }
                    assert forall|x: u32| seq_has(old_events, x) && x != id implies ne[seq_at(
                        ne,
                        x,
                    )]@ == old_events[seq_at(old_events, x)]@ by {
                        let i = seq_at(old_events, x);
                        assert(0 <= i < old_events.len() && old_events[i].id == x);
                        lemma_seq_at(old_events, i);
                        assert(i != jj);
                        assert(ne[i].id == x);
                        lemma_seq_at(ne, i);
                    }
                    lemma_seq_at(ne, jj);
                    assert(ne[jj]@ =~~= EventRecord {
                        name: new_name@,
                        attendees: old(self)@[id].attendees,
                    });
                    assert(self@ =~~= old(self)@.insert(
                        id,
                        EventRecord { name: new_name@, attendees: old(self)@[id].attendees },
                    ));
                }
                Ok(())
            },
        }
    }

    /// Remove an event outright, unfiling its id from the index. A second
    /// deletion of the same id fails like any other missing id.
    pub fn delete_event(&mut self, id: u32) -> (r: Result<(), EventManagementError>)
        requires
            old(self).wf(),
        ensures
            final(self).wf(),
            match r {
                Ok(()) => old(self)@.contains_key(id) && final(self)@ == old(self)@.remove(id),
                Err(e) => e == EventManagementError::EventNotFound && !old(self)@.contains_key(id)
                    && final(self)@ == old(self)@,
            },
    {
        match find_event_index(&self.events, id) {
            None => Err(EventManagementError::EventNotFound),
            Some(j) => {
                let ghost old_events = self.events@;
                let ghost old_index = self.name_index@;
                let ghost jj = j as int;
                proof {
                    lemma_seq_at(old_events, jj);
                }
                let ev = self.events.remove(j);
                proof {
                    assert(index_maps(old_index, ev.name@, id));
                }
                index_remove(&mut self.name_index, &ev.name, id);
                proof {
                    let ne = self.events@;
                    let ni = self.name_index@;
                    assert forall|a: int| 0 <= a < ne.len() implies ne[a] == (if a < jj {
                        old_events[a]
                    } else {
                        old_events[a + 1]
                    }) by {}
                    assert(ids_unique(ne)) by {
                        assert forall|a: int, b: int| 0 <= a < b < ne.len() implies ne[a].id
                            != ne[b].id by {
                            let a2 = if a < jj { a } else { a + 1 };
                            let b2 = if b < jj { b } else { b + 1 };
                            assert(old_events[a2].id != old_events[b2].id);
                        }
                    }
                    assert forall|n: Seq<char>, x: u32| index_maps(ni, n, x) implies
                    event_with_name(ne, x, n) by {
                        assert(index_maps(old_index, n, x) && !(n == ev.name@ && x == id));
                        if x == id {
                            assert(event_with_name(old_events, id, n));
                            let i = choose|i: int|
                                0 <= i < old_events.len() && old_events[i].id == id
                                    && old_events[i].name@ == n;
                            lemma_seq_at(old_events, i);
                            assert(false);
                        } else {
                            let i = choose|i: int|
                                0 <= i < old_events.len() && old_events[i].id == x
                                    && old_events[i].name@ == n;
                            assert(i != jj);
                            let i2 = if i < jj { i } else { i - 1 };
                            assert(ne[i2].id == x && ne[i2].name@ == n);
                        }
                    }
                    assert forall|a: int| 0 <= a < ne.len() implies index_maps(
                        ni,
                        (#[trigger] ne[a]).name@,
                        ne[a].id,
                    ) by {
                        let a2 = if a < jj { a } else { a + 1 };
                        assert(ne[a] == old_events[a2]);
                        assert(index_maps(old_index, old_events[a2].name@, old_events[a2].id));
                        assert(old_events[a2].id != id);
                    }
                    // the view: exactly the record under `id` is gone
                    assert forall|x: u32| #[trigger] seq_has(ne, x) implies seq_has(old_events, x)
                        && x != id by {
                        let i = choose|i: int| 0 <= i < ne.len() && ne[i].id == x;
                        let i2 = if i < jj { i } else { i + 1 };
                        assert(old_events[i2].id == x);
                        assert(i2 != jj);
                        lemma_seq_at(old_events, i2);
                        lemma_seq_at(old_events, jj);
                    }
                    assert forall|x: u32| seq_has(old_events, x) && x != id implies #[trigger]
                    seq_has(ne, x) && ne[seq_at(ne, x)]@ == old_events[seq_at(old_events, x)]@ by {
                        let i = seq_at(old_events, x);
                        assert(0 <= i < old_events.len() && old_events[i].id == x);
                        lemma_seq_at(old_events, i);
                        assert(i != jj);
                        let i2 = if i < jj { i } else { i - 1 };
                        assert(ne[i2].id == x);
                        lemma_seq_at(ne, i2);
                    }
                    assert(self@ =~~= old(self)@.remove(id));
                }
                Ok(())
            },
        }
    }

    /// Append an attendee to an event, in registration order; a textually
    /// identical attendee of the same event is turned away.
    pub fn register_to_event(&mut self, event_id: u32, attendee: &str) -> (r: Result<
        (),
        EventManagementError,
    >)
        requires
            old(self).wf(),
        ensures
            final(self).wf(),
            match r {
                Ok(()) => old(self)@.contains_key(event_id) && !old(self)@[event_id].attendees
                    .contains(attendee@) && final(self)@ == old(self)@.insert(
                    event_id,
                    EventRecord {
                        name: old(self)@[event_id].name,
                        attendees: old(self)@[event_id].attendees.push(attendee@),
                    },
                ),
                Err(e) => final(self)@ == old(self)@ && match e {
                    EventManagementError::EventNotFound => !old(self)@.contains_key(event_id),
                    EventManagementError::AttendeeError(msg) => old(self)@.contains_key(event_id)
                        && old(self)@[event_id].attendees.contains(attendee@) && msg@
                        == "Attendee already registered."@,
                    _ => false,
                },
            },
    {
        match find_event_index(&self.events, event_id) {
            None => Err(EventManagementError::EventNotFound),
            Some(j) => {
                let ghost old_events = self.events@;
                let ghost old_index = self.name_index@;
                let ghost jj = j as int;
                proof {
                    lemma_seq_at(old_events, jj);
                }
                let who = String::from_str(attendee);
                let mut ev = Event { id: 0, name: String::new(), attendees: Vec::new() };
                self.events.set_and_swap(j, &mut ev);
                let already = contains_string(&ev.attendees, &who);
                if already {
                    self.events.set(j, ev);
                    proof {
                        assert(self.events@ =~= old_events);
                        assert(self@ =~~= old(self)@);
                    }
                    return Err(
                        EventManagementError::AttendeeError(
                            String::from_str("Attendee already registered."),
                        ),
                    );
                }
                ev.attendees.push(who);
                self.events.set(j, ev);
                proof {
                    let ne = self.events@;
                    assert forall|a: int| 0 <= a < ne.len() implies ne[a].id
                        == old_events[a].id by {}
                    assert(ids_unique(ne));
                    assert(ne[jj].name@ == old_events[jj].name@);
                    assert forall|n: Seq<char>, x: u32| index_maps(old_index, n, x) implies
                    event_with_name(ne, x, n) by {
                        assert(event_with_name(old_events, x, n));
                        let i = choose|i: int|
                            0 <= i < old_events.len() && old_events[i].id == x
                                && old_events[i].name@ == n;
                        assert(ne[i].id == x && ne[i].name@ == n);
                    }
                    assert forall|a: int| 0 <= a < ne.len() implies index_maps(
                        old_index,
                        (#[trigger] ne[a]).name@,
                        ne[a].id,
                    ) by {
                        assert(ne[a].name@ == old_events[a].name@);
                        assert(index_maps(old_index, old_events[a].name@, old_events[a].id));
                    }
                    // the view: the one record grows by one attendee at the end
                    assert forall|x: u32| #[trigger] seq_has(ne, x) == seq_has(old_events, x) by {
                        if seq_has(ne, x) {
                            let i = choose|i: int| 0 <= i < ne.len() && ne[i].id == x;
                            assert(old_events[i].id == x);
                        }
                        if seq_has(old_events, x) {
                            let i = choose|i: int|
                                0 <= i < old_events.len() && old_events[i].id == x;
                            assert(ne[i].id == x);
                        }
                    }
                    assert forall|x: u32| seq_has(old_events, x) && x != event_id implies ne[seq_at(
                        ne,
                        x,
                    )]@ == old_events[seq_at(old_events, x)]@ by {
                        let i = seq_at(old_events, x);
                        assert(0 <= i < old_events.len() && old_events[i].id == x);
                        lemma_seq_at(old_events, i);
                        assert(i != jj);
                        assert(ne[i].id == x);
                        lemma_seq_at(ne, i);
                    }
                    lemma_seq_at(ne, jj);
                    assert(ne[jj].attendees.deep_view() =~= old_events[jj].attendees.deep_view()
                        .push(attendee@));
                    assert(ne[jj]@ =~~= EventRecord {
                        name: old(self)@[event_id].name,
                        attendees: old(self)@[event_id].attendees.push(attendee@),
                    });
                    assert(self@ =~~= old(self)@.insert(
                        event_id,
                        EventRecord {
                            name: old(self)@[event_id].name,
                            attendees: old(self)@[event_id].attendees.push(attendee@),
                        },
                    ));
                }
                Ok(())
            },
        }
    }

    /// Look an event up by id, returning a borrowed record.
    pub fn get_event(&self, id: u32) -> (r: Result<&Event, EventManagementError>)
        requires
            self.wf(),
        ensures
            match r {
                Ok(e) => self@.contains_key(id) && e.id == id && e@ == self@[id],
                Err(e) => e == EventManagementError::EventNotFound && !self@.contains_key(id),
            },
    {
        match find_event_index(&self.events, id) {
            Some(j) => {
                proof {
                    lemma_seq_at(self.events@, j as int);
                }
                Ok(&self.events[j])
            },
            None => Err(EventManagementError::EventNotFound),
        }
    }

    /// Copy the attendees of an event, in registration order.
    pub fn list_attendees_for_event(&self, event_id: u32) -> (r: Result<
        Vec<String>,
        EventManagementError,
    >)
        requires
            self.wf(),
        ensures
            match r {
                Ok(v) => self@.contains_key(event_id) && v.deep_view() == self@[event_id].attendees,
                Err(e) => e == EventManagementError::EventNotFound && !self@.contains_key(
                    event_id,
                ),
            },
    {
        match find_event_index(&self.events, event_id) {
            None => Err(EventManagementError::EventNotFound),
            Some(j) => {
                proof {
                    lemma_seq_at(self.events@, j as int);
                }
                Ok(copy_strings(&self.events[j].attendees))
            },
        }
    }

    /// A snapshot of every stored event, in no promised order.
    pub fn list_events(&self) -> (r: Vec<Event>)
        requires
            self.wf(),
        ensures
            forall|i: int|
                0 <= i < r@.len() ==> self@.contains_key((#[trigger] r@[i]).id) && r@[i]@
                    == self@[r@[i].id],
            forall|id: u32|
                self@.contains_key(id) ==> exists|i: int|
                    0 <= i < r@.len() && (#[trigger] r@[i]).id == id,
            ids_unique(r@),
    {
        let mut r: Vec<Event> = Vec::new();
        let mut i: usize = 0;
        while i < self.events.len()
            invariant
                self.wf(),
                i <= self.events@.len(),
                r@.len() == i,
                forall|k: int|
                    0 <= k < i ==> (#[trigger] r@[k]).id == self.events@[k].id && r@[k]@
                        == self.events@[k]@,
            decreases self.events@.len() - i,
        {
            r.push(self.events[i].clone());
            i = i + 1;
        }
        proof {
            assert forall|k: int| 0 <= k < r@.len() implies self@.contains_key(
                (#[trigger] r@[k]).id,
            ) && r@[k]@ == self@[r@[k].id] by {
                lemma_seq_at(self.events@, k);
            }
            assert forall|id: u32| self@.contains_key(id) implies exists|k: int|
                0 <= k < r@.len() && (#[trigger] r@[k]).id == id by {
                let k = seq_at(self.events@, id);
                assert(0 <= k < self.events@.len() && self.events@[k].id == id);
                assert(r@[k].id == id);
            }
            assert forall|a: int, b: int| 0 <= a < b < r@.len() implies r@[a].id != r@[b].id by {
                assert(self.events@[a].id != self.events@[b].id);
            }
        }
        r
    }

    /// Every event that currently carries this name, via the index; an
    /// unknown name yields an empty snapshot, never an error.
    pub fn find_events_by_name(&self, name: &str) -> (r: Vec<Event>)
        requires
            self.wf(),
        ensures
            forall|i: int|
                0 <= i < r@.len() ==> self@.contains_key((#[trigger] r@[i]).id) && r@[i]@
                    == self@[r@[i].id] && r@[i]@.name == name@,
            forall|id: u32|
                self@.contains_key(id) && self@[id].name == name@ ==> exists|i: int|
                    0 <= i < r@.len() && (#[trigger] r@[i]).id == id,
            ids_unique(r@),
            (forall|id: u32| self@.contains_key(id) ==> self@[id].name != name@) ==> r@.len() == 0,
    {
        let name_string = String::from_str(name);
        let mut r: Vec<Event> = Vec::new();
        match find_name_entry(&self.name_index, &name_string) {
            None => {
                proof {
                    assert forall|id: u32| self@.contains_key(id) implies self@[id].name
                        != name@ by {
                        let i = seq_at(self.events@, id);
                        assert(0 <= i < self.events@.len() && self.events@[i].id == id);
                        if self.events@[i].name@ == name@ {
                            assert(index_maps(self.name_index@, name@, id));
                            let k = choose|k: int|
                                0 <= k < self.name_index@.len() && self.name_index@[k].name@
                                    == name@ && #[trigger] self.name_index@[k].ids@.contains(id);
                            assert(self.name_index@[k].name@ != name@);
                        }
                    }
                }
                r
            },
            Some(j) => {
                let ghost jj = j as int;
                let ghost slot_ids = self.name_index@[jj].ids@;
                let mut t: usize = 0;
                let ids_len = self.name_index[j].ids.len();
                proof {
                    assert(u32s_unique(slot_ids));
                }
                while t < ids_len
                    invariant
                        self.wf(),
                        jj == j,
                        0 <= jj < self.name_index@.len(),
                        slot_ids == self.name_index@[jj].ids@,
                        self.name_index@[jj].name@ == name@,
                        u32s_unique(slot_ids),
                        ids_len == slot_ids.len(),
                        t <= ids_len,
                        forall|k: int|
                            #![trigger slot_ids[k]]
                            0 <= k < t ==> exists|a: int|
                                0 <= a < r@.len() && (#[trigger] r@[a]).id == slot_ids[k],
                        forall|a: int|
                            0 <= a < r@.len() ==> exists|k: int|
                                0 <= k < t && slot_ids[k] == (#[trigger] r@[a]).id,
                        forall|a: int|
                            0 <= a < r@.len() ==> self@.contains_key((#[trigger] r@[a]).id)
                                && r@[a]@ == self@[r@[a].id] && r@[a]@.name == name@,
                        forall|a: int, b: int| 0 <= a < b < r@.len() ==> r@[a].id != r@[b].id,
                    decreases ids_len - t,
                {
                    let x = self.name_index[j].ids[t];
                    let ghost old_r = r@;
                    proof {
                        assert(slot_ids.contains(x));
                        assert(index_maps(self.name_index@, name@, x));
                        assert(event_with_name(self.events@, x, name@));
                    }
                    match find_event_index(&self.events, x) {
                        Some(p) => {
                            proof {
                                lemma_seq_at(self.events@, p as int);
                                let q = choose|q: int|
                                    0 <= q < self.events@.len() && self.events@[q].id == x
                                        && self.events@[q].name@ == name@;
                                lemma_seq_at(self.events@, q);
                                assert(q == p);
                            }
                            r.push(self.events[p].clone());
                            proof {
                                assert forall|a: int, b: int|
                                    0 <= a < b < r@.len() implies r@[a].id != r@[b].id by {
                                    if b == old_r.len() {
                                        let k = choose|k: int|
                                            0 <= k < t && slot_ids[k] == old_r[a].id;
                                        assert(slot_ids[k] != slot_ids[t as int]);
                                    }
                                }
                            }
                        },
                        None => {
                            // the invariants say every filed id resolves; the
                            // skip is only a defence the proof shows is idle
                            proof {
                                assert(seq_has(self.events@, x));
                                assert(false);
                            }
                        },
                    }
                    t = t + 1;
                    proof {
                        assert forall|k: int| #![trigger slot_ids[k]] 0 <= k < t implies exists|
                            a: int,
                        |
                            0 <= a < r@.len() && (#[trigger] r@[a]).id == slot_ids[k] by {
                            if k < t - 1 {
                                let a = choose|a: int|
                                    0 <= a < old_r.len() && (#[trigger] old_r[a]).id
                                        == slot_ids[k];
                                assert(r@[a].id == slot_ids[k]);
                            } else {
                                assert(r@[r@.len() - 1].id == slot_ids[k]);
                            }
                        }
                    }
                }
                proof {
                    assert forall|id: u32|
                        self@.contains_key(id) && self@[id].name == name@ implies exists|a: int|
                        0 <= a < r@.len() && (#[trigger] r@[a]).id == id by {
                        let i = seq_at(self.events@, id);
                        assert(0 <= i < self.events@.len() && self.events@[i].id == id);
                        assert(self.events@[i].name@ == name@);
                        assert(index_maps(self.name_index@, name@, id));
                        let k = choose|k: int|
                            0 <= k < self.name_index@.len() && self.name_index@[k].name@ == name@
                                && #[trigger] self.name_index@[k].ids@.contains(id);
                        if k < jj {
                            assert(self.name_index@[k].name@ != self.name_index@[jj].name@);
                        } else if jj < k {
                            assert(self.name_index@[jj].name@ != self.name_index@[k].name@);
                        }
                        assert(slot_ids.contains(id));
                        let p = choose|p: int| 0 <= p < slot_ids.len() && slot_ids[p] == id;
                    }
                    if r@.len() > 0 {
                        assert(self@.contains_key(r@[0].id) && self@[r@[0].id].name == name@);
                    }
                }
                r
            },
        }
    }
}

impl EventManagementError {
    /// The error's presentation text, one line per variant.
    pub fn message(&self) -> (s: String)
        ensures
            s@ == match self {
                EventManagementError::EventNotFound => "Event not found."@,
                EventManagementError::DuplicateEvent => "Event with the same ID already exists."@,
                EventManagementError::AttendeeError(m) => "Error managing attendee: "@ + m@,
                EventManagementError::DatabaseError => "An internal database error occurred"@,
            },
    {
        match self {
            EventManagementError::EventNotFound => String::from_str("Event not found."),
            EventManagementError::DuplicateEvent => String::from_str(
                "Event with the same ID already exists.",
            ),
            EventManagementError::AttendeeError(m) => {
                let mut s = String::from_str("Error managing attendee: ");
                s.append(m.as_str());
                s
            },
            EventManagementError::DatabaseError => String::from_str(
                "An internal database error occurred",
            ),
        }
    }
}

} // verus!
