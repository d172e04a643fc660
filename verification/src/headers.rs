//! The header fields of one HTTP message: an insertion-ordered map from
//! field name to field value in which no name occurs twice.
use vstd::prelude::*;

use crate::text::{lowercase, str_eq, to_lowercase};

verus! {

/// One header field: its name and its value.
pub type Field = (Seq<char>, Seq<char>);

/// No two fields share a name.
pub open spec fn distinct_names(s: Seq<Field>) -> bool {
    forall|i: int, j: int| 0 <= i < j < s.len() ==> #[trigger] s[i].0 != #[trigger] s[j].0
}

/// Some field is named `k`.
pub open spec fn has_name(s: Seq<Field>, k: Seq<char>) -> bool {
    exists|i: int| 0 <= i < s.len() && #[trigger] s[i].0 == k
}

/// The position of the field named `k` (meaningful when there is one).
pub open spec fn name_index(s: Seq<Field>, k: Seq<char>) -> int {
    choose|i: int| 0 <= i < s.len() && #[trigger] s[i].0 == k
}

/// The fields after `k` is set to `v`: an existing field named `k` gets the
/// new value in place, otherwise the field is added at the end.
pub open spec fn insert_field(s: Seq<Field>, k: Seq<char>, v: Seq<char>) -> Seq<Field> {
    if has_name(s, k) {
        s.update(name_index(s, k), (k, v))
    } else {
        s.push((k, v))
    }
}

/// The value stored under the name `k`, if any.
pub open spec fn lookup(s: Seq<Field>, k: Seq<char>) -> Option<Seq<char>> {
    if has_name(s, k) {
        Some(s[name_index(s, k)].1)
    } else {
        None
    }
}

/// Field `i` is the first whose name, lowercased, is `name`.
pub open spec fn is_first_match(s: Seq<Field>, name: Seq<char>, i: int) -> bool {
    &&& 0 <= i < s.len()
    &&& lowercase(s[i].0) == name
    &&& forall|j: int| 0 <= j < i ==> lowercase(#[trigger] s[j].0) != name
}

/// Some field's name, lowercased, is `name`.
pub open spec fn has_match(s: Seq<Field>, name: Seq<char>) -> bool {
    exists|i: int| 0 <= i < s.len() && lowercase(#[trigger] s[i].0) == name
}

/// The position of the first field whose lowercased name is `name`
/// (meaningful when there is one).
pub open spec fn first_match(s: Seq<Field>, name: Seq<char>) -> int {
    choose|i: int| is_first_match(s, name, i)
}

/// The value of the first field whose lowercased name is `name`, if any.
pub open spec fn header_lookup(s: Seq<Field>, name: Seq<char>) -> Option<Seq<char>> {
    if has_match(s, name) {
        Some(s[first_match(s, name)].1)
    } else {
        None
    }
}

/// There is one first match at most.
pub proof fn lemma_first_match_unique(s: Seq<Field>, name: Seq<char>, i: int)
    requires
        is_first_match(s, name, i),
    ensures
        has_match(s, name),
        first_match(s, name) == i,
{
    assert(lowercase(s[i].0) == name);
    let j = first_match(s, name);
    assert(is_first_match(s, name, j));
    if j < i {
        assert(lowercase(s[j].0) != name);
    } else if i < j {
        assert(lowercase(s[i].0) != name);
    }
}

/// When some field matches, a first one does.
pub proof fn lemma_first_match_exists(s: Seq<Field>, name: Seq<char>)
    requires
        has_match(s, name),
    ensures
        is_first_match(s, name, first_match(s, name)),
    decreases s.len(),
{
    let i = choose|i: int| 0 <= i < s.len() && lowercase(#[trigger] s[i].0) == name;
    let p = s.drop_last();
    if has_match(p, name) {
        lemma_first_match_exists(p, name);
        let j = first_match(p, name);
        assert(is_first_match(s, name, j)) by {
            assert forall|m: int| 0 <= m < j implies lowercase(#[trigger] s[m].0) != name by {
                assert(s[m] == p[m]);
            };
        };
    } else {
        let l = s.len() - 1;
        assert(i == l) by {
            if i < l {
                assert(p[i] == s[i]);
            }
        };
        assert(is_first_match(s, name, l)) by {
            assert forall|m: int| 0 <= m < l implies lowercase(#[trigger] s[m].0) != name by {
                assert(s[m] == p[m]);
            };
        };
    }
}

/// The position of the first of `names` equal to `name`; given the
/// lowercased field names, this is where a lookup by lowercased name lands.
pub fn first_equal(names: &Vec<String>, name: &str) -> (r: Option<usize>)
    ensures
        match r {
            Some(i) => {
                &&& i < names@.len()
                &&& names@[i as int]@ == name@
                &&& forall|j: int| 0 <= j < i ==> (#[trigger] names@[j])@ != name@
            },
            None => forall|j: int| 0 <= j < names@.len() ==> (#[trigger] names@[j])@ != name@,
        },
{
    let n = names.len();
    let mut i: usize = 0;
    while i < n
        invariant
            n == names@.len(),
            i <= n,
            forall|j: int| 0 <= j < i ==> (#[trigger] names@[j])@ != name@,
        decreases n - i,
    {
        if str_eq(names[i].as_str(), name) {
            return Some(i);
        }
        i = i + 1;
    }
    None
}

/// The header store.
#[derive(Debug)]
pub struct HeaderMap {
    entries: Vec<(String, String)>,
}

impl View for HeaderMap {
    type V = Seq<Field>;

    closed spec fn view(&self) -> Seq<Field> {
        self.entries@.map_values(|e: (String, String)| (e.0@, e.1@))
    }
}

impl HeaderMap {
    /// Well-formed: no name occurs twice.
    pub open spec fn wf(&self) -> bool {
        distinct_names(self@)
    }

    /// An empty header store.
    pub fn new() -> (r: HeaderMap)
        ensures
            r@ == Seq::<Field>::empty(),
            r.wf(),
    {
        let r = HeaderMap { entries: Vec::new() };
        assert(r@ =~= Seq::<Field>::empty());
        r
    }

    /// The number of fields.
    pub fn len(&self) -> (r: usize)
        ensures
            r == self@.len(),
    {
        self.entries.len()
    }

    /// The name of the `i`-th field.
    pub fn name(&self, i: usize) -> (r: &String)
        requires
            i < self@.len(),
        ensures
            r@ == self@[i as int].0,
    {
        &self.entries[i].0
    }

    /// The value of the `i`-th field.
    pub fn value(&self, i: usize) -> (r: &String)
        requires
            i < self@.len(),
        ensures
            r@ == self@[i as int].1,
    {
        &self.entries[i].1
    }

    /// A mutable borrow of the value of the `i`-th field; the names stay as
    /// they are.
    pub fn value_mut(&mut self, i: usize) -> (r: &mut String)
        requires
            i < old(self)@.len(),
        ensures
            (*r)@ == old(self)@[i as int].1,
            final(self)@ == old(self)@.update(i as int, (old(self)@[i as int].0, (*final(r))@)),
    {
        &mut self.entries[i].1
    }

    /// The position of the first field whose name, lowercased, is `name`.
    pub fn find_lowercase(&self, name: &str) -> (r: Option<usize>)
        ensures
            match r {
                Some(i) => is_first_match(self@, name@, i as int) && first_match(self@, name@)
                    == i,
                None => !has_match(self@, name@),
            },
    {
        let n = self.entries.len();
        let mut lowered: Vec<String> = Vec::new();
        let mut i: usize = 0;
        while i < n
            invariant
                n == self@.len(),
                i <= n,
                lowered@.len() == i,
                forall|j: int| 0 <= j < i ==> (#[trigger] lowered@[j])@ == lowercase(self@[j].0),
            decreases n - i,
        {
            lowered.push(to_lowercase(self.entries[i].0.as_str()));
            i = i + 1;
        }
        let r = first_equal(&lowered, name);
        proof {
            match r {
                Some(i) => {
                    assert(lowered@[i as int]@ == lowercase(self@[i as int].0));
                    assert forall|j: int| 0 <= j < i implies lowercase(#[trigger] self@[j].0)
                        != name@ by {
                        assert(lowered@[j]@ == lowercase(self@[j].0));
                    };
                    assert(is_first_match(self@, name@, i as int));
                    lemma_first_match_unique(self@, name@, i as int);
                },
                None => {
                    assert forall|j: int| 0 <= j < n implies lowercase(#[trigger] self@[j].0)
                        != name@ by {
                        assert(lowered@[j]@ == lowercase(self@[j].0));
                    };
                },
            }
        }
        r
    }

    /// Removes every field.
    pub fn clear(&mut self)
        ensures
            final(self)@ == Seq::<Field>::empty(),
    {
        self.entries.clear();
        assert(self@ =~= Seq::<Field>::empty());
    }

    /// Sets the field named `key` to `value`, replacing the value of an
    /// existing field of that name or else adding a field at the end.
    pub fn insert(&mut self, key: String, value: String)
        requires
            old(self).wf(),
        ensures
            final(self).wf(),
            final(self)@ == insert_field(old(self)@, key@, value@),
    {
        let n = self.entries.len();
        let mut i: usize = 0;
        while i < n
            invariant
                n == self@.len(),
                self.entries@.len() == n,
                self@ == old(self)@,
                distinct_names(self@),
                i <= n,
                forall|j: int| 0 <= j < i ==> #[trigger] self@[j].0 != key@,
            decreases n - i,
        {
            if self.entries[i].0 == key {
                let ghost s = self@;
                assert(s[i as int].0 == key@);
                assert(has_name(s, key@));
                let ghost k = name_index(s, key@);
                assert(k == i) by {
                    if k != i {
                        if k < i {
                            assert(s[k].0 != key@);
                        } else {
                            assert(s[i as int].0 != s[k].0);
                        }
                    }
                };
                self.entries[i] = (key, value);
                assert(self@ =~= s.update(i as int, (key@, value@)));
                assert forall|a: int, b: int| 0 <= a < b < self@.len() implies #[trigger] self@[a].0
                    != #[trigger] self@[b].0 by {
                    assert(s[a].0 != s[b].0);
                };
                return;
            }
            i = i + 1;
        }
        let ghost s = self@;
        assert(!has_name(s, key@));
        self.entries.push((key, value));
        assert(self@ =~= s.push((key@, value@)));
        assert forall|a: int, b: int| 0 <= a < b < self@.len() implies #[trigger] self@[a].0
            != #[trigger] self@[b].0 by {
            if b < s.len() {
                assert(s[a].0 != s[b].0);
            } else {
                assert(s[a].0 != key@);
            }
        };
    }
}

/// Setting a name and then looking it up gives the value just set; every
/// other name keeps its value; names stay distinct.
pub proof fn lemma_lookup_after_insert(s: Seq<Field>, k: Seq<char>, v: Seq<char>, k2: Seq<char>)
    requires
        distinct_names(s),
    ensures
        distinct_names(insert_field(s, k, v)),
        lookup(insert_field(s, k, v), k) == Some(v),
        k2 != k ==> lookup(insert_field(s, k, v), k2) == lookup(s, k2),
{
    let t = insert_field(s, k, v);
    if has_name(s, k) {
        let i = name_index(s, k);
        assert(t[i].0 == k);
        assert(has_name(t, k));
        let j = name_index(t, k);
        assert(j == i);
        if has_name(s, k2) && k2 != k {
            let a = name_index(s, k2);
            assert(t[a].0 == k2);
            assert(has_name(t, k2));
            assert(name_index(t, k2) == a);
        }
        if has_name(t, k2) && k2 != k {
            let b = name_index(t, k2);
            assert(s[b].0 == k2);
        }
    } else {
        assert(t[s.len() as int].0 == k);
        assert(has_name(t, k));
        let j = name_index(t, k);
        assert(j == s.len());
        if has_name(s, k2) && k2 != k {
            let a = name_index(s, k2);
            assert(t[a].0 == k2);
            assert(has_name(t, k2));
            assert(name_index(t, k2) == a);
        }
        if has_name(t, k2) && k2 != k {
            let b = name_index(t, k2);
            assert(s[b].0 == k2);
        }
    }
}

} // verus!
