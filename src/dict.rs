//! An insertion-ordered dictionary. Entries sit in the order they were
//! added; a deleted entry leaves a hole, so positions handed out to
//! iterators stay valid.
use vstd::prelude::*;

verus! {

/// A key: an integer (booleans are the integers 0 and 1) or a string.
#[derive(Debug)]
pub enum Key {
    Int(i64),
    Str(String),
}

/// A key as a value: (is a string, integer, characters).
pub type KeyView = (bool, i64, Seq<char>);

impl View for Key {
    type V = KeyView;

    open spec fn view(&self) -> KeyView {
        match self {
            Key::Int(i) => (false, *i, Seq::empty()),
            Key::Str(s) => (true, 0, s@),
        }
    }
}

impl Key {
    pub fn from_bool(b: bool) -> (r: Key)
        ensures
            r@ == (false, if b {
                1i64
            } else {
                0i64
            }, Seq::<char>::empty()),
    {
        Key::Int(if b {
            1
        } else {
            0
        })
    }

    pub fn from_str(s: &str) -> (r: Key)
        ensures
            r@ == (true, 0i64, s@),
    {
        Key::Str(s.to_owned())
    }

    /// A copy of the key.
    pub fn duplicate(&self) -> (r: Key)
        ensures
            r@ == self@,
    {
        match self {
            Key::Int(i) => Key::Int(*i),
            Key::Str(s) => Key::Str(s.clone()),
        }
    }

    /// Key equality.
    pub fn key_eq(&self, other: &Key) -> (r: bool)
        ensures
            r == (self@ == other@),
    {
        match (self, other) {
            (Key::Int(a), Key::Int(b)) => *a == *b,
            (Key::Str(a), Key::Str(b)) => a.eq(b),
            _ => false,
        }
    }
}

/// What can be used to index a dictionary.
pub trait DictKey {
    /// The key this value stands for.
    spec fn key_view(&self) -> KeyView;

    /// An owned key equal to this value.
    fn to_key(&self) -> (r: Key)
        ensures
            r@ == self.key_view(),
    ;
}

impl DictKey for Key {
    open spec fn key_view(&self) -> KeyView {
        self@
    }

    fn to_key(&self) -> (r: Key) {
        self.duplicate()
    }
}

impl DictKey for String {
    open spec fn key_view(&self) -> KeyView {
        (true, 0i64, self@)
    }

    fn to_key(&self) -> (r: Key) {
        Key::Str(self.clone())
    }
}

impl DictKey for i64 {
    open spec fn key_view(&self) -> KeyView {
        (false, *self, Seq::empty())
    }

    fn to_key(&self) -> (r: Key) {
        Key::Int(*self)
    }
}

impl DictKey for bool {
    open spec fn key_view(&self) -> KeyView {
        (false, if *self {
            1i64
        } else {
            0i64
        }, Seq::empty())
    }

    fn to_key(&self) -> (r: Key) {
        Key::from_bool(*self)
    }
}

pub struct DictEntry<T> {
    pub key: Key,
    pub value: T,
}

/// Sizes of the dictionary's storage; a change tells an iterator that the
/// dictionary changed under it.
#[derive(Debug, Clone, Copy, PartialEq, Eq, Structural)]
pub struct DictSize {
    pub entries_size: usize,
    pub used: usize,
}

pub struct Dict<T> {
    entries: Vec<Option<DictEntry<T>>>,
    used: usize,
}

/// The mapping held by a list of entries.
pub open spec fn map_of<T>(s: Seq<Option<DictEntry<T>>>) -> Map<KeyView, T>
    decreases s.len(),
{
    if s.len() == 0 {
        Map::empty()
    } else {
        let m = map_of(s.drop_last());
        match s.last() {
            Some(e) => m.insert(e.key@, e.value),
            None => m,
        }
    }
}

/// Number of entries that are not holes.
pub open spec fn count_live<T>(s: Seq<Option<DictEntry<T>>>) -> nat
    decreases s.len(),
{
    if s.len() == 0 {
        0
    } else {
        count_live(s.drop_last()) + if s.last().is_some() {
            1nat
        } else {
            0nat
        }
    }
}

/// No key occurs in two entries.
pub open spec fn keys_unique<T>(s: Seq<Option<DictEntry<T>>>) -> bool {
    forall|i: int, j: int|
        0 <= i < s.len() && 0 <= j < s.len() && i != j && (#[trigger] s[i]).is_some() && (
        #[trigger] s[j]).is_some() ==> s[i].unwrap().key@ != s[j].unwrap().key@
}

/// The keys of the entries that are not holes, in order.
pub open spec fn live_keys<T>(s: Seq<Option<DictEntry<T>>>) -> Seq<KeyView>
    decreases s.len(),
{
    if s.len() == 0 {
        Seq::empty()
    } else {
        let k = live_keys(s.drop_last());
        match s.last() {
            Some(e) => k.push(e.key@),
            None => k,
        }
    }
}

pub proof fn lemma_count_live_bound<T>(s: Seq<Option<DictEntry<T>>>)
    ensures
        count_live(s) <= s.len(),
    decreases s.len(),
{
    if s.len() > 0 {
        lemma_count_live_bound(s.drop_last());
    }
}

/// An entry's key is in the mapping, with that entry's value.
pub proof fn lemma_map_of_entry<T>(s: Seq<Option<DictEntry<T>>>, i: int)
    requires
        keys_unique(s),
        0 <= i < s.len(),
        s[i].is_some(),
    ensures
        map_of(s).contains_key(s[i].unwrap().key@),
        map_of(s)[s[i].unwrap().key@] == s[i].unwrap().value,
    decreases s.len(),
{
    let t = s.drop_last();
    if i < s.len() - 1 {
        assert(t[i] == s[i]);
        lemma_map_of_entry(t, i);
        if let Some(e) = s.last() {
            assert(s[s.len() - 1].is_some());
            assert(e.key@ != s[i].unwrap().key@);
        }
    }
}

/// A key in no entry is not in the mapping.
pub proof fn lemma_map_of_absent<T>(s: Seq<Option<DictEntry<T>>>, k: KeyView)
    requires
        forall|i: int| 0 <= i < s.len() && (#[trigger] s[i]).is_some() ==> s[i].unwrap().key@ != k,
    ensures
        !map_of(s).contains_key(k),
    decreases s.len(),
{
    if s.len() > 0 {
        let t = s.drop_last();
        assert forall|i: int| 0 <= i < t.len() && (#[trigger] t[i]).is_some() implies t[i].unwrap().key@ != k by {
            assert(t[i] == s[i]);
        }
        lemma_map_of_absent(t, k);
        if s.last().is_some() {
            assert(s[s.len() - 1].is_some());
        }
    }
}

/// Turning entry `i` into a hole removes its key and one live entry.
pub proof fn lemma_map_of_hole<T>(s: Seq<Option<DictEntry<T>>>, i: int)
    requires
        keys_unique(s),
        0 <= i < s.len(),
        s[i].is_some(),
    ensures
        map_of(s.update(i, None)) == map_of(s).remove(s[i].unwrap().key@),
        count_live(s.update(i, None)) == count_live(s) - 1,
        keys_unique(s.update(i, None)),
    decreases s.len(),
{
    let k = s[i].unwrap().key@;
    let u = s.update(i, None);
    let t = s.drop_last();
    if i == s.len() - 1 {
        assert(u.drop_last() =~= t);
        assert forall|j: int| 0 <= j < t.len() && (#[trigger] t[j]).is_some() implies t[j].unwrap().key@ != k by {
            assert(t[j] == s[j]);
        }
        lemma_map_of_absent(t, k);
        assert(map_of(u) == map_of(t));
        assert(map_of(t).remove(k) =~= map_of(t));
    } else {
        assert(u.drop_last() =~= t.update(i, None));
        assert(t[i] == s[i]);
        lemma_map_of_hole(t, i);
        if let Some(e) = s.last() {
            assert(s[s.len() - 1].is_some());
            assert(e.key@ != k);
            assert(map_of(t).remove(k).insert(e.key@, e.value) =~= map_of(t).insert(e.key@, e.value).remove(k));
        }
    }
}

/// Replacing the value of entry `i` replaces it in the mapping.
pub proof fn lemma_map_of_replace<T>(s: Seq<Option<DictEntry<T>>>, i: int, e: DictEntry<T>)
    requires
        keys_unique(s),
        0 <= i < s.len(),
        s[i].is_some(),
        e.key@ == s[i].unwrap().key@,
    ensures
        map_of(s.update(i, Some(e))) == map_of(s).insert(e.key@, e.value),
        count_live(s.update(i, Some(e))) == count_live(s),
        keys_unique(s.update(i, Some(e))),
        live_keys(s.update(i, Some(e))) == live_keys(s),
    decreases s.len(),
{
    let u = s.update(i, Some(e));
    let t = s.drop_last();
    if i == s.len() - 1 {
        assert(u.drop_last() =~= t);
        assert forall|j: int| 0 <= j < t.len() && (#[trigger] t[j]).is_some() implies t[j].unwrap().key@ != e.key@ by {
            assert(t[j] == s[j]);
        }
        lemma_map_of_absent(t, e.key@);
        assert(map_of(t).insert(e.key@, s[i].unwrap().value).insert(e.key@, e.value) =~= map_of(t).insert(
            e.key@,
            e.value,
        ));
    } else {
        assert(u.drop_last() =~= t.update(i, Some(e)));
        assert(t[i] == s[i]);
        lemma_map_of_replace(t, i, e);
        if let Some(l) = s.last() {
            assert(s[s.len() - 1].is_some());
            assert(l.key@ != e.key@);
            assert(map_of(t).insert(e.key@, e.value).insert(l.key@, l.value) =~= map_of(t).insert(
                l.key@,
                l.value,
            ).insert(e.key@, e.value));
        }
    }
}

impl<T> Dict<T> {
    /// The mapping from keys to values.
    pub closed spec fn view_map(&self) -> Map<KeyView, T> {
        map_of(self.entries@)
    }

    /// The keys, in insertion order.
    pub closed spec fn key_order(&self) -> Seq<KeyView> {
        live_keys(self.entries@)
    }

    /// Number of entry slots, holes included.
    pub closed spec fn slots(&self) -> nat {
        self.entries@.len()
    }

    /// Entry slot `j` (`None` for a hole).
    pub closed spec fn slot(&self, j: int) -> Option<DictEntry<T>> {
        self.entries@[j]
    }

    /// Number of keys.
    pub closed spec fn used_spec(&self) -> nat {
        self.used as nat
    }

    pub closed spec fn wf(&self) -> bool {
        &&& self.used == count_live(self.entries@)
        &&& keys_unique(self.entries@)
    }

    /// The number of keys is the size of the mapping and the length of the
    /// key order, which lists exactly the mapping's keys.
    pub proof fn lemma_sizes(&self)
        requires
            self.wf(),
        ensures
            self.view_map().dom().finite(),
            self.used_spec() == self.view_map().dom().len(),
            self.key_order().len() == self.used_spec(),
            forall|k: KeyView| #[trigger] self.key_order().contains(k) <==> self.view_map().contains_key(k),
    {
        lemma_dom_len(self.entries@);
        lemma_live_keys(self.entries@);
    }

    /// An empty dictionary.
    pub fn new() -> (r: Dict<T>)
        ensures
            r.wf(),
            r.view_map() == Map::<KeyView, T>::empty(),
            r.key_order() == Seq::<KeyView>::empty(),
            r.used_spec() == 0,
            r.slots() == 0,
    {
        Dict { entries: Vec::new(), used: 0 }
    }

    /// Position of the entry holding `key`, if any.
    fn lookup(&self, key: &Key) -> (r: Option<usize>)
        requires
            self.wf(),
        ensures
            r matches Some(i) ==> i < self.entries@.len() && self.entries@[i as int].is_some()
                && self.entries@[i as int].unwrap().key@ == key@,
            r is None ==> !self.view_map().contains_key(key@),
            r is None <==> !self.view_map().contains_key(key@),
    {
        let mut i: usize = 0;
        while i < self.entries.len()
            invariant
                self.wf(),
                i <= self.entries@.len(),
                forall|j: int|
                    0 <= j < i && (#[trigger] self.entries@[j]).is_some()
                        ==> self.entries@[j].unwrap().key@ != key@,
            decreases self.entries@.len() - i,
        {
            match &self.entries[i] {
                Some(e) => {
                    if e.key.key_eq(key) {
                        proof {
                            lemma_map_of_entry(self.entries@, i as int);
                        }
                        return Some(i);
                    }
                },
                None => {},
            }
            i = i + 1;
        }
        proof {
            lemma_map_of_absent(self.entries@, key@);
        }
        None
    }

    /// Stores `value` under `key`: a new key goes last, a known key keeps
    /// its place.
    pub fn insert<K: DictKey>(&mut self, key: &K, value: T)
        requires
            old(self).wf(),
            old(self).slots() < usize::MAX,
        ensures
            final(self).wf(),
            final(self).view_map() == old(self).view_map().insert(key.key_view(), value),
            old(self).view_map().contains_key(key.key_view()) ==> final(self).used_spec() == old(self).used_spec()
                && final(self).key_order() == old(self).key_order() && final(self).slots()
                == old(self).slots(),
            !old(self).view_map().contains_key(key.key_view()) ==> final(self).used_spec()
                == old(self).used_spec() + 1 && final(self).key_order() == old(self).key_order().push(
                key.key_view(),
            ) && final(self).slots() == old(self).slots() + 1,
    {
        let key = key.to_key();
        match self.lookup(&key) {
            Some(i) => {
                let ghost k = key@;
                let e = DictEntry { key, value };
                proof {
                    assert(e.key@ == k);
                    assert(self.entries@[i as int].unwrap().key@ == k);
                    lemma_map_of_replace(self.entries@, i as int, e);
                }
                self.entries.set(i, Some(e));
            },
            None => {
                proof {
                    lemma_count_live_bound(self.entries@);
                    assert forall|i: int| 0 <= i < self.entries@.len() && (#[trigger] self.entries@[i]).is_some()
                        implies self.entries@[i].unwrap().key@ != key@ by {
                        if self.entries@[i].unwrap().key@ == key@ {
                            lemma_map_of_entry(self.entries@, i);
                        }
                    }
                }
                let ghost k = key@;
                self.entries.push(Some(DictEntry { key, value }));
                proof {
                    assert(self.entries@.drop_last() =~= old(self).entries@);
                }
                self.used = self.used + 1;
            },
        }
    }

    /// Whether `key` is present.
    pub fn contains<K: DictKey>(&self, key: &K) -> (r: bool)
        requires
            self.wf(),
        ensures
            r == self.view_map().contains_key(key.key_view()),
    {
        let key = key.to_key();
        self.lookup(&key).is_some()
    }

    /// Number of keys.
    pub fn len(&self) -> (r: usize)
        requires
            self.wf(),
        ensures
            r == self.used_spec(),
            r == self.view_map().dom().len(),
    {
        proof {
            lemma_dom_len(self.entries@);
        }
        self.used
    }

    pub fn is_empty(&self) -> (r: bool)
        requires
            self.wf(),
        ensures
            r == (self.view_map().dom().len() == 0),
    {
        self.len() == 0
    }

    /// Current storage sizes.
    pub fn size(&self) -> (r: DictSize)
        ensures
            r.entries_size == self.slots(),
            r.used == self.used_spec(),
    {
        DictSize { entries_size: self.entries.len(), used: self.used }
    }

    /// Whether the sizes differ from an earlier `size()`.
    pub fn has_changed_size(&self, old_size: &DictSize) -> (r: bool)
        ensures
            r == (old_size.entries_size != self.slots() || old_size.used != self.used_spec()),
    {
        let current = self.size();
        current.entries_size != old_size.entries_size || current.used != old_size.used
    }

    /// Number of slots from `position` to the end.
    pub fn len_from_entry_index(&self, position: usize) -> (r: usize)
        ensures
            r == if position <= self.slots() {
                self.slots() - position
            } else {
                0
            },
    {
        let n = self.entries.len();
        if position <= n {
            n - position
        } else {
            0
        }
    }

    /// Removes every key.
    pub fn clear(&mut self)
        ensures
            final(self).wf(),
            final(self).view_map() == Map::<KeyView, T>::empty(),
            final(self).key_order() == Seq::<KeyView>::empty(),
            final(self).used_spec() == 0,
            final(self).slots() == 0,
    {
        self.entries = Vec::new();
        self.used = 0;
    }

    /// Removes `key`, returning its value if it was present.
    pub fn pop<K: DictKey>(&mut self, key: &K) -> (r: Option<T>)
        requires
            old(self).wf(),
        ensures
            final(self).wf(),
            final(self).view_map() == old(self).view_map().remove(key.key_view()),
            final(self).slots() == old(self).slots(),
            r is Some <==> old(self).view_map().contains_key(key.key_view()),
            r matches Some(v) ==> v == old(self).view_map()[key.key_view()],
            r is Some ==> final(self).used_spec() == old(self).used_spec() - 1,
            r is None ==> final(self).used_spec() == old(self).used_spec(),
    {
        let key = key.to_key();
        match self.lookup(&key) {
            Some(i) => {
                let mut slot: Option<DictEntry<T>> = None;
                proof {
                    lemma_map_of_hole(self.entries@, i as int);
                    lemma_map_of_entry(self.entries@, i as int);
                }
                self.entries.set_and_swap(i, &mut slot);
                self.used = self.used - 1;
                match slot {
                    Some(e) => Some(e.value),
                    None => None,
                }
            },
            None => {
                proof {
                    assert(old(self).view_map().remove(key@) =~= old(self).view_map());
                }
                None
            },
        }
    }

    /// Removes `key` if present; returns whether it was.
    pub fn delete_if_exists<K: DictKey>(&mut self, key: &K) -> (r: bool)
        requires
            old(self).wf(),
        ensures
            final(self).wf(),
            final(self).view_map() == old(self).view_map().remove(key.key_view()),
            r == old(self).view_map().contains_key(key.key_view()),
            final(self).slots() == old(self).slots(),
            r ==> final(self).used_spec() == old(self).used_spec() - 1,
            !r ==> final(self).used_spec() == old(self).used_spec(),
    {
        self.pop(key).is_some()
    }

    /// Removes `key`; a missing key is an error that carries the key.
    pub fn delete<K: DictKey>(&mut self, key: &K) -> (r: Result<(), Key>)
        requires
            old(self).wf(),
        ensures
            final(self).wf(),
            final(self).view_map() == old(self).view_map().remove(key.key_view()),
            r is Ok <==> old(self).view_map().contains_key(key.key_view()),
            r matches Err(k) ==> k@ == key.key_view(),
            final(self).slots() == old(self).slots(),
            r is Ok ==> final(self).used_spec() == old(self).used_spec() - 1,
            r is Err ==> final(self).used_spec() == old(self).used_spec(),
    {
        if self.delete_if_exists(key) {
            Ok(())
        } else {
            Err(key.to_key())
        }
    }

    /// Removes `key` if present, else stores `value` under it.
    pub fn delete_or_insert<K: DictKey>(&mut self, key: &K, value: T)
        requires
            old(self).wf(),
            old(self).slots() < usize::MAX,
        ensures
            final(self).wf(),
            old(self).view_map().contains_key(key.key_view()) ==> final(self).view_map() == old(self).view_map().remove(
                key.key_view(),
            ),
            !old(self).view_map().contains_key(key.key_view()) ==> final(self).view_map()
                == old(self).view_map().insert(key.key_view(), value),
            old(self).view_map().contains_key(key.key_view()) ==> final(self).used_spec()
                == old(self).used_spec() - 1,
            !old(self).view_map().contains_key(key.key_view()) ==> final(self).used_spec()
                == old(self).used_spec() + 1,
    {
        if self.contains(key) {
            self.pop(key);
        } else {
            self.insert(key, value);
        }
    }

    /// The keys, in insertion order.
    pub fn keys(&self) -> (r: Vec<Key>)
        ensures
            r@.map_values(|k: Key| k@) == self.key_order(),
    {
        let mut out: Vec<Key> = Vec::new();
        let mut i: usize = 0;
        while i < self.entries.len()
            invariant
                i <= self.entries@.len(),
                out@.map_values(|k: Key| k@) == live_keys(self.entries@.subrange(0, i as int)),
            decreases self.entries@.len() - i,
        {
            proof {
                assert(self.entries@.subrange(0, i + 1).drop_last() =~= self.entries@.subrange(0, i as int));
            }
            match &self.entries[i] {
                Some(e) => {
                    out.push(e.key.duplicate());
                    proof {
                        assert(out@.map_values(|k: Key| k@) =~= live_keys(self.entries@.subrange(0, i as int)).push(
                            e.key@,
                        ));
                    }
                },
                None => {},
            }
            i = i + 1;
        }
        proof {
            assert(self.entries@.subrange(0, self.entries@.len() as int) =~= self.entries@);
        }
        out
    }
}

/// Sum that stops at the largest `usize`.
pub open spec fn capped(n: int) -> int {
    if n <= usize::MAX {
        n
    } else {
        usize::MAX as int
    }
}

impl<T: Clone> Dict<T> {
    /// The value stored under `key`, if any.
    pub fn get<K: DictKey>(&self, key: &K) -> (r: Option<T>)
        requires
            self.wf(),
        ensures
            r is Some <==> self.view_map().contains_key(key.key_view()),
            r matches Some(v) ==> cloned(self.view_map()[key.key_view()], v),
    {
        let key = key.to_key();
        match self.lookup(&key) {
            Some(i) => {
                proof {
                    lemma_map_of_entry(self.entries@, i as int);
                }
                match &self.entries[i] {
                    Some(e) => Some(e.value.clone()),
                    None => None,
                }
            },
            None => None,
        }
    }

    /// The value under `key` here, else the one in `other`.
    pub fn get_chain<K: DictKey>(&self, other: &Dict<T>, key: &K) -> (r: Option<T>)
        requires
            self.wf(),
            other.wf(),
        ensures
            self.view_map().contains_key(key.key_view()) ==> (r matches Some(v) && cloned(
                self.view_map()[key.key_view()],
                v,
            )),
            !self.view_map().contains_key(key.key_view()) ==> (r is Some <==> other.view_map().contains_key(
                key.key_view(),
            )),
            !self.view_map().contains_key(key.key_view()) ==> (r matches Some(v) ==> cloned(
                other.view_map()[key.key_view()],
                v,
            )),
    {
        match self.get(key) {
            Some(x) => Some(x),
            None => other.get(key),
        }
    }

    /// The value under `key`; when absent, `default` is called once and its
    /// result is stored there first.
    pub fn setdefault<K: DictKey, F: FnOnce() -> T>(&mut self, key: &K, default: F) -> (r: T)
        requires
            old(self).wf(),
            old(self).slots() < usize::MAX,
            default.requires(()),
        ensures
            final(self).wf(),
            old(self).view_map().contains_key(key.key_view()) ==> final(self).view_map() == old(self).view_map()
                && cloned(old(self).view_map()[key.key_view()], r),
            !old(self).view_map().contains_key(key.key_view()) ==> exists|v: T|
                #[trigger] default.ensures((), v) && final(self).view_map() == old(self).view_map().insert(
                    key.key_view(),
                    v,
                ) && cloned(v, r),
            old(self).view_map().contains_key(key.key_view()) ==> final(self).used_spec()
                == old(self).used_spec(),
            !old(self).view_map().contains_key(key.key_view()) ==> final(self).used_spec()
                == old(self).used_spec() + 1,
    {
        let (_, v) = self.setdefault_entry(key, default);
        v
    }

    /// Like `setdefault`, also handing back the key.
    pub fn setdefault_entry<K: DictKey, F: FnOnce() -> T>(&mut self, key: &K, default: F) -> (r: (
        Key,
        T,
    ))
        requires
            old(self).wf(),
            old(self).slots() < usize::MAX,
            default.requires(()),
        ensures
            final(self).wf(),
            r.0@ == key.key_view(),
            old(self).view_map().contains_key(key.key_view()) ==> final(self).view_map() == old(self).view_map()
                && cloned(old(self).view_map()[key.key_view()], r.1),
            !old(self).view_map().contains_key(key.key_view()) ==> exists|v: T|
                #[trigger] default.ensures((), v) && final(self).view_map() == old(self).view_map().insert(
                    key.key_view(),
                    v,
                ) && cloned(v, r.1),
            old(self).view_map().contains_key(key.key_view()) ==> final(self).used_spec()
                == old(self).used_spec(),
            !old(self).view_map().contains_key(key.key_view()) ==> final(self).used_spec()
                == old(self).used_spec() + 1,
    {
        match self.get(key) {
            Some(v) => (key.to_key(), v),
            None => {
                let k = key.to_key();
                let value = default();
                let v = value.clone();
                self.insert(key, value);
                (k, v)
            },
        }
    }

    /// The first entry at or after `position`, with the position just past it.
    pub fn next_entry(&self, position: usize) -> (r: Option<(usize, Key, T)>)
        ensures
            r is None <==> forall|j: int| position <= j < self.slots() ==> (
            #[trigger] self.slot(j)) is None,
            r matches Some((p, k, v)) ==> {
                &&& position < p <= self.slots()
                &&& self.slot(p - 1) matches Some(e) && k@ == e.key@ && cloned(e.value, v)
                &&& forall|j: int| position <= j < p - 1 ==> (#[trigger] self.slot(j)) is None
            },
    {
        let mut i = position;
        while i < self.entries.len()
            invariant
                position <= i,
                forall|j: int| position <= j < i && j < self.entries@.len() ==> (
                #[trigger] self.entries@[j]) is None,
            decreases self.entries@.len() - i,
        {
            match &self.entries[i] {
                Some(e) => {
                    return Some((i + 1, e.key.duplicate(), e.value.clone()));
                },
                None => {},
            }
            i = i + 1;
        }
        None
    }

    /// Walks back from `position` to the nearest entry at or before it;
    /// returns the position before that entry (0 stays 0), its key and value.
    pub fn prev_entry(&self, position: usize) -> (r: Option<(usize, Key, T)>)
        ensures
            r is None <==> (position >= self.slots() || forall|j: int| 0 <= j <= position ==> (
            #[trigger] self.slot(j)) is None),
            r matches Some((p, k, v)) ==> exists|q: int|
                0 <= q <= position && p == (if q > 0 {
                    q - 1
                } else {
                    0
                }) && (forall|j: int| q < j <= position ==> (#[trigger] self.slot(j)) is None) && (
                #[trigger] self.slot(q) matches Some(e) && k@ == e.key@ && cloned(e.value, v)),
    {
        if position >= self.entries.len() {
            return None;
        }
        let mut i = position;
        loop
            invariant
                i <= position < self.entries@.len(),
                forall|j: int| i < j <= position ==> (#[trigger] self.entries@[j]) is None,
            decreases i,
        {
            match &self.entries[i] {
                Some(e) => {
                    let p = if i > 0 {
                        i - 1
                    } else {
                        0
                    };
                    let k = e.key.duplicate();
                    let v = e.value.clone();
                    proof {
                        let q = i as int;
                        assert(self.slot(q) matches Some(e) && k@ == e.key@ && cloned(e.value, v));
                        assert(forall|j: int| q < j <= position ==> (#[trigger] self.slot(j)) is None);
                    }
                    return Some((p, k, v));
                },
                None => {},
            }
            if i == 0 {
                return None;
            }
            i = i - 1;
        }
    }

    /// Removes and returns the last entry.
    pub fn pop_back(&mut self) -> (r: Option<(Key, T)>)
        requires
            old(self).wf(),
        ensures
            final(self).wf(),
            r is None <==> old(self).view_map().dom().len() == 0,
            r matches Some((k, v)) ==> (old(self).view_map().contains_key(k@) && old(self).view_map()[k@]
                == v && final(self).view_map() == old(self).view_map().remove(k@)),
    {
        loop
            invariant
                self.wf(),
                map_of(self.entries@) == map_of(old(self).entries@),
                self.used == old(self).used,
                keys_unique(old(self).entries@),
                old(self).used == count_live(old(self).entries@),
            decreases self.entries@.len(),
        {
            let ghost before = self.entries@;
            match self.entries.pop() {
                None => {
                    proof {
                        lemma_dom_len(old(self).entries@);
                    }
                    return None;
                },
                Some(None) => {
                    proof {
                        assert(before.drop_last() =~= self.entries@);
                        assert forall|i: int, j: int|
                            0 <= i < self.entries@.len() && 0 <= j < self.entries@.len() && i != j && (
                            #[trigger] self.entries@[i]).is_some() && (#[trigger] self.entries@[j]).is_some()
                                implies self.entries@[i].unwrap().key@ != self.entries@[j].unwrap().key@ by {
                            assert(self.entries@[i] == before[i] && self.entries@[j] == before[j]);
                        }
                    }
                },
                Some(Some(e)) => {
                    proof {
                        assert(before.drop_last() =~= self.entries@);
                        assert(before[before.len() - 1] is Some);
                        lemma_map_of_entry(before, before.len() - 1);
                        lemma_map_of_hole(before, before.len() - 1);
                        assert(before.update(before.len() - 1, None).drop_last() =~= self.entries@);
                        lemma_dom_len(old(self).entries@);
                        assert(old(self).view_map().dom().contains(e.key@));
                    }
                    self.used = self.used - 1;
                    return Some((e.key, e.value));
                },
            }
        }
    }

    /// Approximate memory taken by the dictionary, in bytes (stops at the
    /// largest `usize`).
    pub fn sizeof(&self) -> (r: usize)
        ensures
            r == capped(
                (vstd::layout::size_of::<Dict<T>>() + self.slots()
                    * vstd::layout::size_of::<Option<DictEntry<T>>>()) as int,
            ),
    {
        let base = std::mem::size_of::<Dict<T>>();
        let each = std::mem::size_of::<Option<DictEntry<T>>>();
        match self.entries.len().checked_mul(each) {
            Some(m) => match base.checked_add(m) {
                Some(t) => t,
                None => usize::MAX,
            },
            None => {
                proof {
                    assert(self.entries@.len() * each > usize::MAX);
                    assert(base + self.entries@.len() * each > usize::MAX);
                }
                usize::MAX
            },
        }
    }
}

impl<T> Default for Dict<T> {
    fn default() -> (r: Dict<T>)
        ensures
            r.wf(),
            r.view_map() == Map::<KeyView, T>::empty(),
            r.key_order() == Seq::<KeyView>::empty(),
            r.used_spec() == 0,
            r.slots() == 0,
    {
        Dict::new()
    }
}

/// The live keys are as many as the live entries, and are the mapping's keys.
proof fn lemma_live_keys<T>(s: Seq<Option<DictEntry<T>>>)
    ensures
        live_keys(s).len() == count_live(s),
        forall|k: KeyView| #[trigger] live_keys(s).contains(k) <==> map_of(s).contains_key(k),
    decreases s.len(),
{
    if s.len() > 0 {
        let t = s.drop_last();
        lemma_live_keys(t);
        if let Some(e) = s.last() {
            assert forall|k: KeyView| #[trigger] live_keys(s).contains(k) <==> map_of(s).contains_key(k) by {
                assert(live_keys(s) == live_keys(t).push(e.key@));
                if live_keys(t).contains(k) {
                    let i = choose|i: int| 0 <= i < live_keys(t).len() && live_keys(t)[i] == k;
                    assert(live_keys(s)[i] == k);
                }
                if k == e.key@ {
                    assert(live_keys(s)[live_keys(s).len() - 1] == k);
                }
                if live_keys(s).contains(k) && k != e.key@ {
                    let i = choose|i: int| 0 <= i < live_keys(s).len() && live_keys(s)[i] == k;
                    assert(i < live_keys(t).len());
                    assert(live_keys(t)[i] == k);
                }
            }
        }
    }
}

/// The mapping has one key per live entry.
proof fn lemma_dom_len<T>(s: Seq<Option<DictEntry<T>>>)
    requires
        keys_unique(s),
    ensures
        map_of(s).dom().len() == count_live(s),
        map_of(s).dom().finite(),
    decreases s.len(),
{
    if s.len() > 0 {
        let t = s.drop_last();
        assert(keys_unique(t)) by {
            assert forall|i: int, j: int|
                0 <= i < t.len() && 0 <= j < t.len() && i != j && (#[trigger] t[i]).is_some() && (
                #[trigger] t[j]).is_some() implies t[i].unwrap().key@ != t[j].unwrap().key@ by {
                assert(t[i] == s[i] && t[j] == s[j]);
            }
        }
        lemma_dom_len(t);
        if let Some(e) = s.last() {
            assert(s[s.len() - 1].is_some());
            assert forall|i: int| 0 <= i < t.len() && (#[trigger] t[i]).is_some() implies t[i].unwrap().key@ != e.key@ by {
                assert(t[i] == s[i]);
            }
            lemma_map_of_absent(t, e.key@);
        }
    }
}

} // verus!
