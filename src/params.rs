//! The parameters extracted by a match: names paired with the text they
//! captured, in the order in which they were first inserted.
use vstd::prelude::*;

verus! {

/// Named parameters; inserting a name that is already present replaces its
/// value, so no two entries share a name (`new` starts with none and
/// `insert` keeps it so).
#[derive(Debug, Clone)]
pub struct Params {
    map: Vec<(String, String)>,
}

/// The entries as character sequences.
pub open spec fn entries_view(v: Seq<(String, String)>) -> Seq<(Seq<char>, Seq<char>)> {
    v.map_values(|e: (String, String)| (e.0@, e.1@))
}

/// No two entries have the same name.
pub open spec fn names_distinct(e: Seq<(Seq<char>, Seq<char>)>) -> bool {
    forall|i: int, j: int| 0 <= i < j < e.len() ==> e[i].0 != e[j].0
}

/// Position of the first entry named `k`.
pub open spec fn key_position(e: Seq<(Seq<char>, Seq<char>)>, k: Seq<char>) -> Option<int>
    decreases e.len(),
{
    if e.len() == 0 {
        None
    } else {
        match key_position(e.drop_last(), k) {
            Some(i) => Some(i),
            None => if e.last().0 == k {
                Some(e.len() - 1)
            } else {
                None
            },
        }
    }
}

/// `e` with `k` bound to `v`: the entry named `k` has its value replaced,
/// or a new entry is appended.
pub open spec fn upsert(e: Seq<(Seq<char>, Seq<char>)>, k: Seq<char>, v: Seq<char>) -> Seq<
    (Seq<char>, Seq<char>),
> {
    match key_position(e, k) {
        Some(i) => e.update(i, (k, v)),
        None => e.push((k, v)),
    }
}

/// Binds `names[i]` to `values[i]` for the first `n` positions, in order, after `e`.
pub open spec fn upsert_all(
    e: Seq<(Seq<char>, Seq<char>)>,
    names: Seq<Seq<char>>,
    values: Seq<Seq<char>>,
    n: int,
) -> Seq<(Seq<char>, Seq<char>)>
    decreases n,
{
    if n <= 0 {
        e
    } else {
        upsert(upsert_all(e, names, values, n - 1), names[n - 1], values[n - 1])
    }
}

proof fn lemma_key_position<'a>(e: Seq<(Seq<char>, Seq<char>)>, k: Seq<char>)
    ensures
        key_position(e, k) is Some ==> {
            let i = key_position(e, k)->0;
            &&& 0 <= i < e.len()
            &&& e[i].0 == k
            &&& forall|j: int| 0 <= j < i ==> (#[trigger] e[j]).0 != k
        },
        key_position(e, k) is None ==> forall|j: int| 0 <= j < e.len() ==> (#[trigger] e[j]).0 != k,
    decreases e.len(),
{
    if e.len() > 0 {
        let d = e.drop_last();
        lemma_key_position(d, k);
        assert forall|j: int| 0 <= j < d.len() implies #[trigger] d[j] == e[j] by {}
        if key_position(d, k) is Some {
            let i = key_position(d, k)->0;
            assert forall|j: int| 0 <= j < i implies (#[trigger] e[j]).0 != k by {
                assert(d[j].0 != k);
            }
        } else {
            assert forall|j: int| 0 <= j < d.len() implies (#[trigger] e[j]).0 != k by {
                assert(d[j].0 != k);
            }
        }
    }
}

impl View for Params {
    type V = Seq<(Seq<char>, Seq<char>)>;

    closed spec fn view(&self) -> Seq<(Seq<char>, Seq<char>)> {
        entries_view(self.map@)
    }
}

impl Params {
    /// No parameters.
    pub fn new() -> (r: Params)
        ensures
            r@ == Seq::<(Seq<char>, Seq<char>)>::empty(),
            names_distinct(r@),
    {
        let r = Params { map: Vec::new() };
        assert(r@ =~= Seq::<(Seq<char>, Seq<char>)>::empty());
        r
    }

    /// Binds `key` to `value`.
    pub fn insert(&mut self, key: String, value: String)
        ensures
            final(self)@ == upsert(old(self)@, key@, value@),
            names_distinct(old(self)@) ==> names_distinct(final(self)@),
    {
        let ghost e = self@;
        proof {
            lemma_key_position(e, key@);
        }
        let mut i: usize = 0;
        while i < self.map.len()
            invariant
                self@ == e,
                e == old(self)@,
                i <= e.len(),
                forall|j: int| 0 <= j < i ==> (#[trigger] e[j]).0 != key@,
            decreases self.map.len() - i,
        {
            assert(e[i as int].0 == self.map@[i as int].0@);
            if self.map[i].0 == key {
                proof {
                    lemma_key_position(e, key@);
                    let p = key_position(e, key@);
                    if p is Some {
                        let q = p->0;
                        if q < i {
                            assert(e[q].0 != key@);
                        }
                        if q > i {
                            assert(e[i as int].0 != key@);
                        }
                    } else {
                        assert(e[i as int].0 != key@);
                    }
                }
                assert(key_position(e, key@) == Some(i as int));
                self.map.set(i, (key, value));
                assert(self@ =~= e.update(i as int, (key@, value@)));
                assert(names_distinct(e) ==> names_distinct(self@)) by {
                    assert(forall|j: int| 0 <= j < e.len() ==> (#[trigger] self@[j]).0 == e[j].0);
                }
                return;
            }
            i = i + 1;
        }
        proof {
            lemma_key_position(e, key@);
            if key_position(e, key@) is Some {
                let q = key_position(e, key@)->0;
                assert(e[q].0 != key@);
            }
        }
        self.map.push((key, value));
        assert(self@ =~= e.push((key@, value@)));
        assert(names_distinct(e) ==> names_distinct(self@)) by {
            assert(forall|j: int| 0 <= j < e.len() ==> (#[trigger] self@[j]).0 == e[j].0);
        }
    }

    /// The number of parameters.
    pub fn len(&self) -> (r: usize)
        ensures
            r == self@.len(),
    {
        self.map.len()
    }

    /// The value bound to `key`, if any.
    pub fn get(&self, key: &str) -> (r: Option<&String>)
        ensures
            key_position(self@, key@) is None ==> r is None,
            key_position(self@, key@) is Some ==> r is Some && r->0@ == self@[key_position(
                self@,
                key@,
            )->0].1,
    {
        let ghost e = self@;
        let wanted = String::from_str(key);
        let mut i: usize = 0;
        while i < self.map.len()
            invariant
                self@ == e,
                wanted@ == key@,
                i <= e.len(),
                forall|j: int| 0 <= j < i ==> (#[trigger] e[j]).0 != key@,
            decreases self.map.len() - i,
        {
            assert(e[i as int] == (self.map@[i as int].0@, self.map@[i as int].1@));
            if self.map[i].0 == wanted {
                proof {
                    lemma_key_position(e, key@);
                    let p = key_position(e, key@);
                    if p is Some {
                        let q = p->0;
                        if q < i {
                            assert(e[q].0 != key@);
                        }
                        if q > i {
                            assert(e[i as int].0 != key@);
                        }
                    } else {
                        assert(e[i as int].0 != key@);
                    }
                }
                return Some(&self.map[i].1);
            }
            i = i + 1;
        }
        proof {
            lemma_key_position(e, key@);
            if key_position(e, key@) is Some {
                let q = key_position(e, key@)->0;
                assert(e[q].0 != key@);
            }
        }
        None
    }

    /// The value bound to `key`, which must be bound.
    pub fn index(&self, key: &str) -> (r: &String)
        requires
            key_position(self@, key@) is Some,
        ensures
            r@ == self@[key_position(self@, key@)->0].1,
    {
        self.get(key).unwrap()
    }

    /// Whether `key` is bound to `value`.
    fn holds(&self, key: &String, value: &String) -> (r: bool)
        ensures
            r == self@.contains((key@, value@)),
    {
        let ghost e = self@;
        let mut i: usize = 0;
        while i < self.map.len()
            invariant
                self@ == e,
                i <= e.len(),
                forall|j: int| 0 <= j < i ==> #[trigger] e[j] != (key@, value@),
            decreases self.map.len() - i,
        {
            assert(e[i as int] == (self.map@[i as int].0@, self.map@[i as int].1@));
            if self.map[i].0 == *key && self.map[i].1 == *value {
                assert(e[i as int] == (key@, value@));
                return true;
            }
            i = i + 1;
        }
        false
    }

    /// Whether every binding of `self` is a binding of `other`.
    fn within(&self, other: &Params) -> (r: bool)
        ensures
            r == (forall|k: Seq<char>, v: Seq<char>|
                self@.contains((k, v)) ==> other@.contains((k, v))),
    {
        let ghost e = self@;
        let mut i: usize = 0;
        while i < self.map.len()
            invariant
                self@ == e,
                i <= e.len(),
                forall|j: int| 0 <= j < i ==> other@.contains(#[trigger] e[j]),
            decreases self.map.len() - i,
        {
            assert(e[i as int] == (self.map@[i as int].0@, self.map@[i as int].1@));
            if !other.holds(&self.map[i].0, &self.map[i].1) {
                assert(e.contains(e[i as int]));
                return false;
            }
            i = i + 1;
        }
        proof {
            assert forall|k: Seq<char>, v: Seq<char>|
                self@.contains((k, v)) implies other@.contains((k, v)) by {
                let j = choose|j: int| 0 <= j < e.len() && e[j] == (k, v);
                assert(other@.contains(e[j]));
            }
        }
        true
    }
}

impl PartialEq for Params {
    /// The same bindings, whatever their order.
    fn eq(&self, other: &Params) -> (r: bool) {
        self.within(other) && other.within(self)
    }
}

impl vstd::std_specs::cmp::PartialEqSpecImpl for Params {
    open spec fn obeys_eq_spec() -> bool {
        true
    }

    open spec fn eq_spec(&self, other: &Params) -> bool {
        forall|k: Seq<char>, v: Seq<char>| self@.contains((k, v)) <==> other@.contains((k, v))
    }
}

} // verus!
