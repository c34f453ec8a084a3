//! The automaton: character classes, an append-only arena of states,
//! multi-trace simulation and capture extraction.
use std::cmp::Ordering;
use vstd::prelude::*;

verus! {

/// A predicate over a single character: an allow-list or a deny-list.
#[derive(Clone)]
pub enum CharacterClass {
    ValidChars(Vec<char>),
    InvalidChars(Vec<char>),
}

/// The mathematical value of a [`CharacterClass`]: an allow-list or a
/// deny-list, over a set of characters.
pub struct ClassView {
    pub allow: bool,
    pub members: Set<char>,
}

impl ClassView {
    /// Whether the class lets `c` through.
    pub open spec fn admits(self, c: char) -> bool {
        if self.allow {
            self.members.contains(c)
        } else {
            !self.members.contains(c)
        }
    }
}

/// The class that lets every character through.
pub open spec fn any_class() -> ClassView {
    ClassView { allow: false, members: Set::empty() }
}

/// The class that lets `c` through and nothing else.
pub open spec fn allow_one(c: char) -> ClassView {
    ClassView { allow: true, members: set![c] }
}

/// The class that lets everything through but `c`.
pub open spec fn deny_one(c: char) -> ClassView {
    ClassView { allow: false, members: set![c] }
}

impl View for CharacterClass {
    type V = ClassView;

    open spec fn view(&self) -> ClassView {
        match self {
            CharacterClass::ValidChars(v) => ClassView { allow: true, members: v@.to_set() },
            CharacterClass::InvalidChars(v) => ClassView { allow: false, members: v@.to_set() },
        }
    }
}

/// The characters of `s`, in order.
pub(crate) fn chars_of(s: &str) -> (r: Vec<char>)
    ensures
        r@ == s@,
{
    let mut r: Vec<char> = Vec::new();
    for c in it: s.chars()
        invariant
            it.seq() == s@,
            r@ == s@.subrange(0, it.index() as int),
    {
        r.push(c);
    }
    assert(r@ =~= s@);
    r
}

impl CharacterClass {
    /// The class that matches every character: a deny-list over nothing.
    pub fn any() -> (r: CharacterClass)
        ensures
            r@ == any_class(),
            forall|c: char| r@.admits(c),
    {
        let r = CharacterClass::InvalidChars(Vec::new());
        assert(r@.members =~= Set::<char>::empty());
        r
    }

    /// An allow-list over the characters of `string`.
    pub fn valid(string: &str) -> (r: CharacterClass)
        ensures
            r@ == (ClassView { allow: true, members: string@.to_set() }),
    {
        let r = CharacterClass::ValidChars(CharacterClass::str_to_set(string));
        assert(r@.members =~= string@.to_set());
        r
    }

    /// An allow-list that holds `c` alone.
    pub fn valid_char(c: char) -> (r: CharacterClass)
        ensures
            r@ == allow_one(c),
    {
        let r = CharacterClass::ValidChars(CharacterClass::char_to_set(c));
        assert(r@.members =~= set![c]);
        r
    }

    /// A deny-list over the characters of `string`.
    pub fn invalid(string: &str) -> (r: CharacterClass)
        ensures
            r@ == (ClassView { allow: false, members: string@.to_set() }),
    {
        let r = CharacterClass::InvalidChars(CharacterClass::str_to_set(string));
        assert(r@.members =~= string@.to_set());
        r
    }

    /// A deny-list that holds `c` alone.
    pub fn invalid_char(c: char) -> (r: CharacterClass)
        ensures
            r@ == deny_one(c),
    {
        let r = CharacterClass::InvalidChars(CharacterClass::char_to_set(c));
        assert(r@.members =~= set![c]);
        r
    }

    /// Whether `c` passes this class.
    pub fn matches(&self, c: &char) -> (r: bool)
        ensures
            r == self@.admits(*c),
    {
        match self {
            CharacterClass::ValidChars(valid) => list_contains(valid, *c),
            CharacterClass::InvalidChars(invalid) => !list_contains(invalid, *c),
        }
    }

    /// Whether the two classes are of the same kind over the same characters.
    pub fn same(&self, other: &CharacterClass) -> (r: bool)
        ensures
            r == (self@ == other@),
    {
        let r = match (self, other) {
            (CharacterClass::ValidChars(a), CharacterClass::ValidChars(b)) => same_members(a, b),
            (CharacterClass::InvalidChars(a), CharacterClass::InvalidChars(b)) => same_members(a, b),
            _ => false,
        };
        proof {
            if r {
                assert(self@.members =~= other@.members);
            } else if self@ == other@ {
                match (self, other) {
                    (CharacterClass::ValidChars(a), CharacterClass::ValidChars(b)) => {
                        assert forall|c: char| a@.contains(c) <==> b@.contains(c) by {
                            assert(self@.members.contains(c) <==> other@.members.contains(c));
                        }
                    },
                    (CharacterClass::InvalidChars(a), CharacterClass::InvalidChars(b)) => {
                        assert forall|c: char| a@.contains(c) <==> b@.contains(c) by {
                            assert(self@.members.contains(c) <==> other@.members.contains(c));
                        }
                    },
                    _ => {},
                }
            }
        }
        r
    }

    fn char_to_set(c: char) -> (r: Vec<char>)
        ensures
            r@ == seq![c],
            forall|d: char| r@.contains(d) <==> d == c,
    {
        let mut set: Vec<char> = Vec::new();
        set.push(c);
        assert(set@[0] == c);
        set
    }

    fn str_to_set(string: &str) -> (r: Vec<char>)
        ensures
            forall|c: char| r@.contains(c) <==> string@.contains(c),
            r@.no_duplicates(),
    {
        let chars = chars_of(string);
        let mut set: Vec<char> = Vec::new();
        let mut i: usize = 0;
        while i < chars.len()
            invariant
                i <= chars@.len(),
                chars@ == string@,
                set@.no_duplicates(),
                forall|c: char| set@.contains(c) <==> chars@.subrange(0, i as int).contains(c),
            decreases chars.len() - i,
        {
            let c = chars[i];
            let ghost old_set = set@;
            if !list_contains(&set, c) {
                set.push(c);
            }
            proof {
                lemma_push_contains(old_set, c);
                let before = chars@.subrange(0, i as int);
                assert(chars@.subrange(0, i + 1) =~= before.push(c));
                lemma_push_contains(before, c);
            }
            i = i + 1;
        }
        proof {
            assert(chars@.subrange(0, chars@.len() as int) =~= chars@);
        }
        set
    }
}

impl PartialEq for CharacterClass {
    fn eq(&self, other: &CharacterClass) -> (r: bool) {
        self.same(other)
    }
}

impl vstd::std_specs::cmp::PartialEqSpecImpl for CharacterClass {
    open spec fn obeys_eq_spec() -> bool {
        true
    }

    open spec fn eq_spec(&self, other: &CharacterClass) -> bool {
        self@ == other@
    }
}

proof fn lemma_push_contains(s: Seq<char>, c: char)
    ensures
        forall|d: char| #[trigger] s.push(c).contains(d) <==> s.contains(d) || d == c,
{
    assert forall|d: char| #[trigger] s.push(c).contains(d) <==> s.contains(d) || d == c by {
        if s.contains(d) {
            let k = choose|k: int| 0 <= k < s.len() && s[k] == d;
            assert(s.push(c)[k] == d);
        }
        if d == c {
            assert(s.push(c)[s.len() as int] == d);
        }
        if s.push(c).contains(d) {
            let k = choose|k: int| 0 <= k < s.len() + 1 && s.push(c)[k] == d;
            if k < s.len() {
                assert(s[k] == d);
            }
        }
    }
}

fn list_contains(v: &Vec<char>, c: char) -> (r: bool)
    ensures
        r == v@.contains(c),
{
    let mut i: usize = 0;
    while i < v.len()
        invariant
            i <= v@.len(),
            forall|k: int| 0 <= k < i ==> v@[k] != c,
        decreases v.len() - i,
    {
        if v[i] == c {
            return true;
        }
        i = i + 1;
    }
    false
}

fn contains_all(a: &Vec<char>, b: &Vec<char>) -> (r: bool)
    ensures
        r == (forall|c: char| b@.contains(c) ==> a@.contains(c)),
{
    let mut i: usize = 0;
    while i < b.len()
        invariant
            i <= b@.len(),
            forall|k: int| 0 <= k < i ==> a@.contains(#[trigger] b@[k]),
        decreases b.len() - i,
    {
        if !list_contains(a, b[i]) {
            assert(b@.contains(b@[i as int]));
            return false;
        }
        i = i + 1;
    }
    true
}

fn same_members(a: &Vec<char>, b: &Vec<char>) -> (r: bool)
    ensures
        r == (forall|c: char| a@.contains(c) <==> b@.contains(c)),
{
    contains_all(a, b) && contains_all(b, a)
}

/// One node of the automaton.
#[derive(Clone)]
pub struct State<T> {
    /// The state's identity: its position in the arena.
    pub index: usize,
    /// The class that a character must pass to enter this state.
    pub chars: CharacterClass,
    /// Successor identities, in insertion order.
    pub next_states: Vec<usize>,
    pub acceptance: bool,
    pub start_capture: bool,
    pub end_capture: bool,
    pub metadata: Option<T>,
}

/// The mathematical value of a [`State`].
#[verifier::ext_equal]
pub struct StateView<T> {
    pub index: usize,
    pub chars: ClassView,
    pub next: Seq<usize>,
    pub acceptance: bool,
    pub start_capture: bool,
    pub end_capture: bool,
    pub metadata: Option<T>,
}

impl<T> View for State<T> {
    type V = StateView<T>;

    open spec fn view(&self) -> StateView<T> {
        StateView {
            index: self.index,
            chars: self.chars@,
            next: self.next_states@,
            acceptance: self.acceptance,
            start_capture: self.start_capture,
            end_capture: self.end_capture,
            metadata: self.metadata,
        }
    }
}

impl<T> State<T> {
    /// A state with the given identity and guard, no successors and no flags.
    pub fn new(index: usize, chars: CharacterClass) -> (r: State<T>)
        ensures
            r@ == fresh_state::<T>(index, chars@),
    {
        State {
            index: index,
            chars: chars,
            next_states: Vec::new(),
            acceptance: false,
            start_capture: false,
            end_capture: false,
            metadata: None,
        }
    }
}

impl<T> PartialEq for State<T> {
    /// States are the same when their identities are.
    fn eq(&self, other: &State<T>) -> (r: bool) {
        self.index == other.index
    }
}

impl<T> vstd::std_specs::cmp::PartialEqSpecImpl for State<T> {
    open spec fn obeys_eq_spec() -> bool {
        true
    }

    open spec fn eq_spec(&self, other: &State<T>) -> bool {
        self.index == other.index
    }
}

/// A state that has just been allocated.
pub open spec fn fresh_state<T>(index: usize, chars: ClassView) -> StateView<T> {
    StateView {
        index: index,
        chars: chars,
        next: Seq::empty(),
        acceptance: false,
        start_capture: false,
        end_capture: false,
        metadata: None,
    }
}

/// An arena is well formed when it holds the root, each state's identity is
/// its position, and every transition leads to a state of the arena.
pub open spec fn wf_arena<T>(a: Seq<StateView<T>>) -> bool {
    &&& a.len() > 0
    &&& forall|i: int| 0 <= i < a.len() ==> (#[trigger] a[i]).index == i
    &&& forall|i: int, k: int|
        0 <= i < a.len() && 0 <= k < a[i].next.len() ==> #[trigger] a[i].next[k] < a.len()
}

/// `b` grew from `a`: states were only appended, guards kept, and
/// transition lists only extended at their end.
pub open spec fn extends<T>(b: Seq<StateView<T>>, a: Seq<StateView<T>>) -> bool {
    &&& a.len() <= b.len()
    &&& forall|i: int|
        0 <= i < a.len() ==> {
            &&& (#[trigger] b[i]).index == a[i].index
            &&& b[i].chars == a[i].chars
            &&& a[i].next.len() <= b[i].next.len()
            &&& b[i].next.subrange(0, a[i].next.len() as int) == a[i].next
        }
}

/// The first state listed in `next` whose guard satisfies `p`.
pub open spec fn first_target<T>(
    a: Seq<StateView<T>>,
    next: Seq<usize>,
    p: spec_fn(ClassView) -> bool,
) -> Option<usize>
    decreases next.len(),
{
    if next.len() == 0 {
        None
    } else if p(a[next[0] as int].chars) {
        Some(next[0])
    } else {
        first_target(a, next.drop_first(), p)
    }
}

/// The test that a guard is the class `g`.
pub open spec fn guard_is(g: ClassView) -> spec_fn(ClassView) -> bool {
    |x: ClassView| x == g
}

/// The existing edge out of `from` whose target is guarded by the class `g`.
pub open spec fn find_edge<T>(a: Seq<StateView<T>>, from: usize, g: ClassView) -> Option<usize> {
    first_target(a, a[from as int].next, guard_is(g))
}

/// The state that a literal character `c` leads to from `from`, through the
/// edge that deduplicating insertion would reuse.
pub open spec fn literal_edge<T>(a: Seq<StateView<T>>, from: usize, c: char) -> Option<usize> {
    find_edge(a, from, allow_one(c))
}

/// The state that the parameter edge out of `from` leads to: the first
/// successor guarded by a deny-list of the separator alone.
pub open spec fn parameter_edge<T>(a: Seq<StateView<T>>, from: usize) -> Option<usize> {
    find_edge(a, from, deny_one('/'))
}

/// Inserting an edge from `from` to a state guarded by `g`: the existing
/// edge is reused and nothing changes, or a new state is appended and the
/// edge to it is appended to the transitions of `from`. Gives the new
/// automaton and the edge's target.
pub open spec fn put_model<T>(a: Seq<StateView<T>>, from: usize, g: ClassView) -> (
    Seq<StateView<T>>,
    usize,
) {
    match find_edge(a, from, g) {
        Some(j) => (a, j),
        None => (
            a.update(
                from as int,
                StateView { next: a[from as int].next.push(a.len() as usize), ..a[from as int] },
            ).push(fresh_state(a.len() as usize, g)),
            a.len() as usize,
        ),
    }
}

/// Follows the literal edges for the characters of `q`, from `from`.
pub open spec fn literal_walk<T>(a: Seq<StateView<T>>, from: usize, q: Seq<char>) -> Option<usize>
    decreases q.len(),
{
    if q.len() == 0 {
        Some(from)
    } else {
        match literal_walk(a, from, q.drop_last()) {
            Some(x) => literal_edge(a, x, q.last()),
            None => None,
        }
    }
}

/// A non-deterministic automaton over characters, its states held in an
/// append-only arena; state 0 is the root.
#[derive(Clone)]
pub struct NFA<T> {
    states: Vec<State<T>>,
}

impl<T> View for NFA<T> {
    type V = Seq<StateView<T>>;

    closed spec fn view(&self) -> Seq<StateView<T>> {
        self.states@.map_values(|s: State<T>| s@)
    }
}

impl<T> NFA<T> {
    /// The arena is well formed.
    pub open spec fn wf(&self) -> bool {
        wf_arena(self@)
    }

    /// An automaton that holds the root alone, guarded by the class that
    /// matches everything.
    pub fn new() -> (r: NFA<T>)
        ensures
            r.wf(),
            r@.len() == 1,
            r@[0].index == 0,
            r@[0].chars == any_class(),
            r@[0].next.len() == 0,
            !r@[0].acceptance,
            !r@[0].start_capture,
            !r@[0].end_capture,
            r@[0].metadata is None,
            r@ == seq![fresh_state::<T>(0, any_class())],
    {
        let root = State::new(0, CharacterClass::any());
        let mut states: Vec<State<T>> = Vec::new();
        states.push(root);
        let r = NFA { states };
        assert(r@[0] == states@[0]@);
        assert(r@ =~~= seq![fresh_state::<T>(0, any_class())]);
        r
    }

    /// The number of states.
    pub fn len(&self) -> (r: usize)
        ensures
            r == self@.len(),
    {
        self.states.len()
    }

    /// The state with identity `index`.
    pub fn get(&self, index: usize) -> (r: &State<T>)
        requires
            index < self@.len(),
        ensures
            r@ == self@[index as int],
    {
        &self.states[index]
    }

    /// The state with identity `index`, for changing it in place.
    pub fn get_mut(&mut self, index: usize) -> (r: &mut State<T>)
        requires
            index < old(self)@.len(),
        ensures
            (*r)@ == old(self)@[index as int],
            final(self)@ == old(self)@.update(index as int, (*final(r))@),
    {
        proof {
            assert(self@[index as int] == self.states@[index as int]@);
        }
        &mut self.states[index]
    }

    /// An edge from `index` to a state guarded by `chars`: the existing one
    /// whose guard equals `chars`, else a new state appended to the arena.
    pub fn put(&mut self, index: usize, chars: CharacterClass) -> (r: usize)
        requires
            old(self).wf(),
            index < old(self)@.len(),
            old(self)@.len() < usize::MAX,
        ensures
            final(self).wf(),
            extends(final(self)@, old(self)@),
            r < final(self)@.len(),
            final(self)@ == put_model(old(self)@, index, chars@).0,
            r == put_model(old(self)@, index, chars@).1,
            find_edge(final(self)@, index, chars@) == Some(r),
            final(self)@[r as int].chars == chars@,
    {
        let ghost a = self@;
        let ghost p = guard_is(chars@);
        let n = self.states[index].next_states.len();
        proof {
            assert(a[index as int] == self.states@[index as int]@);
            assert(a[index as int].next.subrange(0, n as int) =~= a[index as int].next);
            lemma_extends_refl(a);
        }
        let mut k: usize = 0;
        while k < n
            invariant
                self@ == a,
                wf_arena(a),
                extends(a, a),
                index < a.len(),
                n == a[index as int].next.len(),
                k <= n,
                p == guard_is(chars@),
                first_target(a, a[index as int].next, p) == first_target(
                    a,
                    a[index as int].next.subrange(k as int, n as int),
                    p,
                ),
            decreases n - k,
        {
            let target = self.states[index].next_states[k];
            assert(a[index as int] == self.states@[index as int]@);
            assert(target == a[index as int].next[k as int]);
            let ghost rest = a[index as int].next.subrange(k as int, n as int);
            assert(rest[0] == target);
            if self.states[target].chars.same(&chars) {
                assert(a[target as int] == self.states@[target as int]@);
                assert(a[target as int].chars == chars@);
                return target;
            }
            assert(a[target as int] == self.states@[target as int]@);
            assert(rest.drop_first() =~= a[index as int].next.subrange(k + 1, n as int));
            k = k + 1;
        }
        assert(a[index as int].next.subrange(n as int, n as int).len() == 0);
        let ghost g = chars@;
        let r = self.new_state(chars);
        assert(self.states@.len() == self@.len());
        let ghost mid = self.states@;
        assert(self@[index as int] == mid[index as int]@);
        assert(forall|i: int| 0 <= i < mid.len() ==> self@[i] == #[trigger] mid[i]@);
        self.states[index].next_states.push(r);
        proof {
            let b = self@;
            let expected = a.update(
                index as int,
                StateView { next: a[index as int].next.push(r), ..a[index as int] },
            ).push(fresh_state(r, g));
            assert(mid[index as int]@ == a[index as int]);
            assert forall|i: int| 0 <= i < b.len() implies b[i] == expected[i] by {
                assert(b[i] == self.states@[i]@);
                if i != index {
                    assert(self.states@[i] == mid[i]);
                    assert(mid[i]@ == a.push(fresh_state(r, g))[i]);
                } else {
                    assert(b[i] =~~= expected[i]);
                }
            }
            assert(b =~~= a.update(
                index as int,
                StateView { next: a[index as int].next.push(r), ..a[index as int] },
            ).push(fresh_state(r, g)));
            assert(wf_arena(b)) by {
                assert forall|i: int, j: int| 0 <= i < b.len() && 0 <= j < b[i].next.len()
                    implies #[trigger] b[i].next[j] < b.len() by {
                    if i != index && i < a.len() {
                        assert(b[i] == a[i]);
                    }
                    if i == index && j < a[i].next.len() {
                        assert(b[i].next[j] == a[i].next[j]);
                    }
                }
            }
            assert(extends(b, a)) by {
                assert forall|i: int| 0 <= i < a.len() implies {
                    &&& (#[trigger] b[i]).index == a[i].index
                    &&& b[i].chars == a[i].chars
                    &&& a[i].next.len() <= b[i].next.len()
                    &&& b[i].next.subrange(0, a[i].next.len() as int) == a[i].next
                } by {
                    if i == index {
                        assert(b[i].next.subrange(0, a[i].next.len() as int) =~= a[i].next);
                    }
                }
            }
            lemma_first_target_same(a, b, a[index as int].next, p);
            lemma_first_target_push(b, a[index as int].next, r, p);
        }
        r
    }

    fn new_state(&mut self, chars: CharacterClass) -> (r: usize)
        requires
            old(self)@.len() < usize::MAX,
        ensures
            r == old(self)@.len(),
            final(self)@ == old(self)@.push(fresh_state(r, chars@)),
    {
        let index = self.states.len();
        let state = State::new(index, chars);
        self.states.push(state);
        proof {
            assert(self@ =~= old(self)@.push(fresh_state(index, chars@)));
        }
        index
    }

    /// Appends `child` to the transitions of `index`, without looking for an
    /// equal edge: the way a state loops on itself.
    pub fn put_state(&mut self, index: usize, child: usize)
        requires
            old(self).wf(),
            index < old(self)@.len(),
            child < old(self)@.len(),
        ensures
            final(self).wf(),
            extends(final(self)@, old(self)@),
            final(self)@ == old(self)@.update(
                index as int,
                StateView { next: old(self)@[index as int].next.push(child), ..old(self)@[index as int] },
            ),
    {
        let ghost a = self@;
        self.states[index].next_states.push(child);
        proof {
            let b = self@;
            assert(b =~= a.update(
                index as int,
                StateView { next: a[index as int].next.push(child), ..a[index as int] },
            ));
            assert(wf_arena(b)) by {
                assert forall|i: int, j: int| 0 <= i < b.len() && 0 <= j < b[i].next.len()
                    implies #[trigger] b[i].next[j] < b.len() by {
                    if i != index {
                        assert(b[i] == a[i]);
                    } else if j < a[i].next.len() {
                        assert(b[i].next[j] == a[i].next[j]);
                    }
                }
            }
            assert(extends(b, a)) by {
                assert forall|i: int| 0 <= i < a.len() implies {
                    &&& (#[trigger] b[i]).index == a[i].index
                    &&& b[i].chars == a[i].chars
                    &&& a[i].next.len() <= b[i].next.len()
                    &&& b[i].next.subrange(0, a[i].next.len() as int) == a[i].next
                } by {
                    if i == index {
                        assert(b[i].next.subrange(0, a[i].next.len() as int) =~= a[i].next);
                    }
                }
            }
        }
    }

    /// Marks `index` as accepting.
    pub fn acceptance(&mut self, index: usize)
        requires
            old(self).wf(),
            index < old(self)@.len(),
        ensures
            final(self).wf(),
            extends(final(self)@, old(self)@),
            final(self)@ == old(self)@.update(
                index as int,
                StateView { acceptance: true, ..old(self)@[index as int] },
            ),
    {
        let ghost a = self@;
        self.states[index].acceptance = true;
        proof {
            self.lemma_flag_update(a, index);
        }
    }

    /// Marks `index` as opening a capture.
    pub fn start_capture(&mut self, index: usize)
        requires
            old(self).wf(),
            index < old(self)@.len(),
        ensures
            final(self).wf(),
            extends(final(self)@, old(self)@),
            final(self)@ == old(self)@.update(
                index as int,
                StateView { start_capture: true, ..old(self)@[index as int] },
            ),
    {
        let ghost a = self@;
        self.states[index].start_capture = true;
        proof {
            self.lemma_flag_update(a, index);
        }
    }

    /// Marks `index` as closing a capture.
    pub fn end_capture(&mut self, index: usize)
        requires
            old(self).wf(),
            index < old(self)@.len(),
        ensures
            final(self).wf(),
            extends(final(self)@, old(self)@),
            final(self)@ == old(self)@.update(
                index as int,
                StateView { end_capture: true, ..old(self)@[index as int] },
            ),
    {
        let ghost a = self@;
        self.states[index].end_capture = true;
        proof {
            self.lemma_flag_update(a, index);
        }
    }

    /// Attaches `metadata` to `index`, replacing what was there.
    pub fn metadata(&mut self, index: usize, metadata: T)
        requires
            old(self).wf(),
            index < old(self)@.len(),
        ensures
            final(self).wf(),
            extends(final(self)@, old(self)@),
            final(self)@ == old(self)@.update(
                index as int,
                StateView { metadata: Some(metadata), ..old(self)@[index as int] },
            ),
    {
        let ghost a = self@;
        self.states[index].metadata = Some(metadata);
        proof {
            self.lemma_flag_update(a, index);
        }
    }

    /// Runs the automaton over `string`: every trace that can consume the
    /// whole input is followed at once, the traces that end in an accepting
    /// state are ranked by `sort`, and the winner's final state and
    /// captures are returned.
    pub fn process<F: Fn(&[usize], &[usize]) -> Ordering>(&self, string: &str, sort: F) -> (r:
        Result<Match, String>)
        requires
            self.wf(),
            forall|x: &[usize], y: &[usize]| sort.requires((x, y)),
        ensures
            generation(self@, string@, string@.len()).len() == 0 ==> r is Err && r->Err_0@
                == no_transition_message(string@),
            generation(self@, string@, string@.len()).len() > 0 && accepting_traces(
                self@,
                string@,
            ).len() == 0 ==> r is Err && r->Err_0@ == no_acceptance_message(),
            r is Ok <==> accepting_traces(self@, string@).len() > 0,
            r is Ok ==> {
                let acc = accepting_traces(self@, string@);
                exists|i: int|
                    0 <= i < acc.len() && r->Ok_0.state == (#[trigger] acc[i]).last()
                        && strings_view(r->Ok_0.captures@) == captures_of(self@, string@, acc[i])
            },
            r is Ok ==> r->Ok_0.state < self@.len() && self@[r->Ok_0.state as int].acceptance,
            forall|rank: spec_fn(Seq<usize>, Seq<usize>) -> Ordering|
                #![trigger agrees(sort, rank)]
                agrees(sort, rank) && r is Ok ==> {
                    let w = winner(self@, string@, rank);
                    &&& r->Ok_0.state == w.last()
                    &&& strings_view(r->Ok_0.captures@) == captures_of(self@, string@, w)
                },
    {
        let ghost a = self@;
        let input = chars_of(string);
        let n = input.len();
        let mut first: Vec<usize> = Vec::new();
        first.push(0);
        let mut current: Vec<Vec<usize>> = Vec::new();
        current.push(first);
        let mut i: usize = 0;
        proof {
            assert(traces_view(current@) =~= generation(a, input@, 0));
        }
        while i < n
            invariant
                self@ == a,
                wf_arena(a),
                input@ == string@,
                n == input@.len(),
                i <= n,
                traces_view(current@) == generation(a, input@, i as nat),
                forall|x: &[usize], y: &[usize]| sort.requires((x, y)),
            decreases n - i,
        {
            proof {
                lemma_generation_ok(a, input@, i as nat);
            }
            let next = self.process_char(&current, &input[i], Ghost(i as int + 1));
            if next.len() == 0 {
                proof {
                    assert(traces_view(next@).len() == 0);
                    lemma_generation_dead(a, input@, (i + 1) as nat, n as nat);
                }
                let mut msg = String::from_str("Couldn't process ");
                msg.append(string);
                return Err(msg);
            }
            current = next;
            i = i + 1;
        }
        let ghost g = generation(a, input@, n as nat);
        proof {
            lemma_generation_ok(a, input@, n as nat);
        }
        let mut returned: Vec<Vec<usize>> = Vec::new();
        let mut k: usize = 0;
        while k < current.len()
            invariant
                self@ == a,
                wf_arena(a),
                traces_view(current@) == g,
                all_ok(a.len() as int, g, n + 1),
                k <= current@.len(),
                traces_view(returned@) == accepted(a, g, k as int),
            decreases current.len() - k,
        {
            assert(current@[k as int]@ == g[k as int]);
            assert(trace_ok(a.len() as int, g[k as int], n + 1));
            let last = current[k][current[k].len() - 1];
            if self.get(last).acceptance {
                let t = copy_trace(&current[k]);
                returned.push(t);
                proof {
                    assert(traces_view(returned@) =~= accepted(a, g, k as int).push(g[k as int]));
                }
            }
            k = k + 1;
        }
        let ghost acc = accepted(a, g, g.len() as int);
        assert(traces_view(returned@) == acc);
        if returned.len() == 0 {
            assert(acc.len() == 0);
            if current.len() == 0 {
                assert(g.len() == 0);
                let mut msg = String::from_str("Couldn't process ");
                msg.append(string);
                return Err(msg);
            }
            return Err(String::from_str("The string was exhausted before reaching an acceptance state"));
        }
        proof {
            lemma_accepted_props(a, g, g.len() as int);
        }
        let mut best: usize = 0;
        let mut k: usize = 1;
        while k < returned.len()
            invariant
                self@ == a,
                traces_view(returned@) == acc,
                1 <= k <= returned@.len(),
                best < k,
                forall|rank: spec_fn(Seq<usize>, Seq<usize>) -> Ordering|
                    #![trigger agrees(sort, rank)]
                    agrees(sort, rank) ==> best == pick_index(acc, rank, k as int),
                forall|x: &[usize], y: &[usize]| sort.requires((x, y)),
            decreases returned.len() - k,
        {
            let o = sort(returned[best].as_slice(), returned[k].as_slice());
            proof {
                assert(returned@[best as int]@ == acc[best as int]);
                assert(returned@[k as int]@ == acc[k as int]);
            }
            let keep = match o {
                Ordering::Greater => true,
                _ => false,
            };
            if !keep {
                best = k;
            }
            k = k + 1;
        }
        assert(returned@[best as int]@ == acc[best as int]);
        assert(acc.contains(acc[best as int]));
        assert(g.contains(acc[best as int]));
        let ghost gi = choose|gi: int| 0 <= gi < g.len() && g[gi] == acc[best as int];
        assert(trace_ok(a.len() as int, g[gi], n + 1));
        let trace = &returned[best];
        let captures = self.extract_captures(string, trace);
        let state = trace[trace.len() - 1];
        let m = Match::new(self.get(state).index, captures);
        proof {
            assert(acc == accepting_traces(a, string@));
            assert(trace@ == acc[best as int]);
            assert(strings_view(m.captures@) == captures_of(a, string@, acc[best as int]));
            assert(0 <= best < acc.len() && m.state == acc[best as int].last());
        }
        Ok(m)
    }

    /// The next generation of traces: each trace forked once for every
    /// transition of its last state whose target admits `c`.
    fn process_char(&self, traces: &Vec<Vec<usize>>, c: &char, Ghost(n): Ghost<int>) -> (r: Vec<Vec<usize>>)
        requires
            self.wf(),
            n >= 1,
            all_ok(self@.len() as int, traces_view(traces@), n),
        ensures
            traces_view(r@) == step(self@, traces_view(traces@), *c, traces@.len() as int),
    {
        let ghost a = self@;
        let ghost tv = traces_view(traces@);
        let mut returned: Vec<Vec<usize>> = Vec::new();
        let mut i: usize = 0;
        while i < traces.len()
            invariant
                self@ == a,
                wf_arena(a),
                tv == traces_view(traces@),
                n >= 1,
                all_ok(a.len() as int, tv, n),
                i <= traces@.len(),
                traces_view(returned@) == step(a, tv, *c, i as int),
            decreases traces.len() - i,
        {
            let trace = &traces[i];
            assert(trace@ == tv[i as int]);
            assert(trace_ok(a.len() as int, tv[i as int], n));
            let last = trace[trace.len() - 1];
            let state = self.get(last);
            let m = state.next_states.len();
            let ghost base = traces_view(returned@);
            let mut k: usize = 0;
            while k < m
                invariant
                    self@ == a,
                    wf_arena(a),
                    last < a.len(),
                    i < tv.len(),
                    trace@ == tv[i as int],
                    trace@.len() == n,
                    last == trace@.last(),
                    state@ == a[last as int],
                    m == a[last as int].next.len(),
                    k <= m,
                    base == step(a, tv, *c, i as int),
                    traces_view(returned@) == base + forks(a, trace@, *c, k as int),
                decreases m - k,
            {
                let index = state.next_states[k];
                assert(index < a.len());
                let target = self.get(index);
                assert(index == a[trace@.last() as int].next[k as int]);
                if target.chars.matches(c) {
                    let forked = fork_trace(trace, target);
                    let ghost before = returned@;
                    returned.push(forked);
                    proof {
                        assert(a[index as int].index == index);
                        assert(forked@ == trace@.push(index));
                        assert(forks(a, trace@, *c, k + 1) == forks(a, trace@, *c, k as int).push(trace@.push(index)));
                        assert(traces_view(returned@) =~= traces_view(before).push(forked@));
                        assert(traces_view(returned@) =~= base + forks(a, trace@, *c, k + 1));
                    }
                } else {
                    assert(forks(a, trace@, *c, k + 1) == forks(a, trace@, *c, k as int));
                }
                k = k + 1;
            }
            i = i + 1;
        }
        returned
    }

    /// Cuts the captures of `trace`, a trace of a run over `source`, out of `source`.
    fn extract_captures(&self, source: &str, trace: &Vec<usize>) -> (r: Vec<String>)
        requires
            trace_ok(self@.len() as int, trace@, source@.len() + 1 as int),
        ensures
            strings_view(r@) == captures_of(self@, source@, trace@),
    {
        let ghost a = self@;
        let mut captures: Vec<String> = Vec::new();
        let mut start_slice: Option<usize> = None;
        let end = trace.len() - 1;
        let mut pos: usize = 0;
        assert(strings_view(captures@) =~= seq![]);
        while pos < trace.len()
            invariant
                self@ == a,
                trace_ok(a.len() as int, trace@, source@.len() + 1 as int),
                end == source@.len(),
                pos <= trace@.len(),
                start_slice matches Some(s) ==> s <= pos,
                capture_scan(a, source@, trace@, pos as int, opt_int(start_slice), strings_view(captures@))
                    == captures_of(a, source@, trace@),
            decreases trace.len() - pos,
        {
            let state_index = trace[pos];
            let state = self.get(state_index);
            let ghost open0 = opt_int(start_slice);
            let ghost acc0 = strings_view(captures@);
            if start_slice.is_none() && state.start_capture {
                start_slice = Some(if pos == 0 { 0 } else { pos - 1 });
            }
            if pos < end {
                let next_state_index = trace[pos + 1];
                if start_slice.is_some() && state.end_capture && state_index != next_state_index {
                    let s = start_slice.unwrap();
                    let piece = source.substring_char(s, pos).to_owned();
                    captures.push(piece);
                    start_slice = None;
                    proof {
                        assert(strings_view(captures@) =~= acc0.push(source@.subrange(s as int, pos as int)));
                    }
                }
            } else if start_slice.is_some() && state.end_capture {
                let s = start_slice.unwrap();
                let piece = source.substring_char(s, end).to_owned();
                captures.push(piece);
                start_slice = None;
                proof {
                    assert(strings_view(captures@) =~= acc0.push(source@.subrange(s as int, source@.len() as int)));
                }
            }
            pos = pos + 1;
        }
        captures
    }

    /// After a change to one state that left its identity, guard and
    /// transitions alone, the arena is still well formed and extends the old one.
    proof fn lemma_flag_update(&self, a: Seq<StateView<T>>, index: usize)
        requires
            wf_arena(a),
            index < a.len(),
            self@.len() == a.len(),
            forall|i: int| 0 <= i < a.len() && i != index ==> self@[i] == a[i],
            self@[index as int].index == a[index as int].index,
            self@[index as int].chars == a[index as int].chars,
            self@[index as int].next == a[index as int].next,
        ensures
            wf_arena(self@),
            extends(self@, a),
    {
        let b = self@;
        assert forall|i: int, j: int| 0 <= i < b.len() && 0 <= j < b[i].next.len()
            implies #[trigger] b[i].next[j] < b.len() by {
            assert(b[i].next == a[i].next);
        }
        assert forall|i: int| 0 <= i < a.len() implies {
            &&& (#[trigger] b[i]).index == a[i].index
            &&& b[i].chars == a[i].chars
            &&& a[i].next.len() <= b[i].next.len()
            &&& b[i].next.subrange(0, a[i].next.len() as int) == a[i].next
        } by {
            assert(b[i].next.subrange(0, a[i].next.len() as int) =~= a[i].next);
        }
    }
}

/// The traces, as sequences of state identities.
pub open spec fn traces_view(v: Seq<Vec<usize>>) -> Seq<Seq<usize>> {
    v.map_values(|t: Vec<usize>| t@)
}

/// The strings, as sequences of characters.
pub open spec fn strings_view(v: Seq<String>) -> Seq<Seq<char>> {
    v.map_values(|s: String| s@)
}

/// The forks of trace `t` on character `c`, through the first `k`
/// transitions of its last state, in transition order.
pub open spec fn forks<T>(a: Seq<StateView<T>>, t: Seq<usize>, c: char, k: int) -> Seq<Seq<usize>>
    decreases k,
{
    if k <= 0 {
        seq![]
    } else {
        let j = a[t.last() as int].next[k - 1];
        if a[j as int].chars.admits(c) {
            forks(a, t, c, k - 1).push(t.push(j))
        } else {
            forks(a, t, c, k - 1)
        }
    }
}

/// The next generation grown from the first `k` of `traces` on character `c`.
pub open spec fn step<T>(a: Seq<StateView<T>>, traces: Seq<Seq<usize>>, c: char, k: int) -> Seq<
    Seq<usize>,
>
    decreases k,
{
    if k <= 0 {
        seq![]
    } else {
        step(a, traces, c, k - 1) + forks(
            a,
            traces[k - 1],
            c,
            a[traces[k - 1].last() as int].next.len() as int,
        )
    }
}

/// The live traces after the first `k` characters of `input`, in discovery order.
pub open spec fn generation<T>(a: Seq<StateView<T>>, input: Seq<char>, k: nat) -> Seq<Seq<usize>>
    decreases k,
{
    if k == 0 {
        seq![seq![0usize]]
    } else {
        let prev = generation(a, input, (k - 1) as nat);
        step(a, prev, input[k - 1], prev.len() as int)
    }
}

/// Those of the first `k` traces that end in an accepting state, in order.
pub open spec fn accepted<T>(a: Seq<StateView<T>>, traces: Seq<Seq<usize>>, k: int) -> Seq<
    Seq<usize>,
>
    decreases k,
{
    if k <= 0 {
        seq![]
    } else if a[traces[k - 1].last() as int].acceptance {
        accepted(a, traces, k - 1).push(traces[k - 1])
    } else {
        accepted(a, traces, k - 1)
    }
}

/// The accepting traces of a complete run over `input`.
pub open spec fn accepting_traces<T>(a: Seq<StateView<T>>, input: Seq<char>) -> Seq<Seq<usize>> {
    let g = generation(a, input, input.len());
    accepted(a, g, g.len() as int)
}

/// Position of the winner among the first `k` traces: a later trace takes
/// over unless the current winner ranks strictly above it. For a total
/// preorder this is the last of the highest-ranked traces, as a stable
/// ascending sort followed by taking the last element selects.
pub open spec fn pick_index(
    traces: Seq<Seq<usize>>,
    rank: spec_fn(Seq<usize>, Seq<usize>) -> Ordering,
    k: int,
) -> int
    decreases k,
{
    if k <= 1 {
        0
    } else {
        let b = pick_index(traces, rank, k - 1);
        if rank(traces[b], traces[k - 1]) == Ordering::Greater {
            b
        } else {
            k - 1
        }
    }
}

/// The winning accepting trace of a run over `input` under `rank`.
pub open spec fn winner<T>(
    a: Seq<StateView<T>>,
    input: Seq<char>,
    rank: spec_fn(Seq<usize>, Seq<usize>) -> Ordering,
) -> Seq<usize> {
    let acc = accepting_traces(a, input);
    acc[pick_index(acc, rank, acc.len() as int)]
}

/// The comparator `sort` agrees with `rank` on every call it can make.
pub open spec fn agrees<F: Fn(&[usize], &[usize]) -> Ordering>(
    sort: F,
    rank: spec_fn(Seq<usize>, Seq<usize>) -> Ordering,
) -> bool {
    forall|x: &[usize], y: &[usize], o: Ordering| #[trigger]
        sort.ensures((x, y), o) ==> o == rank(x@, y@)
}

/// Scans the trace `tr` of a run over `src` from position `p`, with the
/// capture opened at `open`, if any, and the captures `acc` closed so far.
pub open spec fn capture_scan<T>(
    a: Seq<StateView<T>>,
    src: Seq<char>,
    tr: Seq<usize>,
    p: int,
    open: Option<int>,
    acc: Seq<Seq<char>>,
) -> Seq<Seq<char>>
    decreases tr.len() - p,
{
    if p < 0 || p >= tr.len() {
        acc
    } else {
        let st = a[tr[p] as int];
        let open1 = if open is None && st.start_capture {
            Some(if p == 0 { 0 } else { p - 1 })
        } else {
            open
        };
        if p + 1 < tr.len() {
            if open1 is Some && st.end_capture && tr[p] != tr[p + 1] {
                capture_scan(a, src, tr, p + 1, None, acc.push(src.subrange(open1->0, p)))
            } else {
                capture_scan(a, src, tr, p + 1, open1, acc)
            }
        } else if open1 is Some && st.end_capture {
            capture_scan(
                a,
                src,
                tr,
                p + 1,
                None,
                acc.push(src.subrange(open1->0, src.len() as int)),
            )
        } else {
            capture_scan(a, src, tr, p + 1, open1, acc)
        }
    }
}

/// The captures that trace `tr` of a run over `src` cuts out of `src`, left to right.
pub open spec fn captures_of<T>(a: Seq<StateView<T>>, src: Seq<char>, tr: Seq<usize>) -> Seq<
    Seq<char>,
> {
    capture_scan(a, src, tr, 0, None, seq![])
}

/// A trace of `n` states of an arena of `len` states, starting at the root.
pub open spec fn trace_ok(len: int, t: Seq<usize>, n: int) -> bool {
    &&& t.len() == n
    &&& t[0] == 0
    &&& forall|e: int| 0 <= e < n ==> #[trigger] t[e] < len
}

/// Every trace of `ts` is a trace of `n` states of an arena of `len` states.
pub open spec fn all_ok(len: int, ts: Seq<Seq<usize>>, n: int) -> bool {
    forall|i: int| 0 <= i < ts.len() ==> trace_ok(len, #[trigger] ts[i], n)
}

proof fn lemma_forks_ok<T>(a: Seq<StateView<T>>, t: Seq<usize>, c: char, k: int, n: int)
    requires
        wf_arena(a),
        n >= 1,
        trace_ok(a.len() as int, t, n),
        k <= a[t.last() as int].next.len(),
    ensures
        all_ok(a.len() as int, forks(a, t, c, k), n + 1),
    decreases k,
{
    if k > 0 {
        lemma_forks_ok(a, t, c, k - 1, n);
        let j = a[t.last() as int].next[k - 1];
        assert(t[n - 1] < a.len());
        assert(j < a.len());
        let u = t.push(j);
        assert forall|e: int| 0 <= e < n + 1 implies #[trigger] u[e] < a.len() by {
            if e < n {
                assert(u[e] == t[e]);
            }
        }
        assert(trace_ok(a.len() as int, u, n + 1));
    }
}

proof fn lemma_step_ok<T>(a: Seq<StateView<T>>, ts: Seq<Seq<usize>>, c: char, k: int, n: int)
    requires
        wf_arena(a),
        n >= 1,
        all_ok(a.len() as int, ts, n),
        k <= ts.len(),
    ensures
        all_ok(a.len() as int, step(a, ts, c, k), n + 1),
    decreases k,
{
    if k > 0 {
        lemma_step_ok(a, ts, c, k - 1, n);
        assert(trace_ok(a.len() as int, ts[k - 1], n));
        lemma_forks_ok(a, ts[k - 1], c, a[ts[k - 1].last() as int].next.len() as int, n);
        let s1 = step(a, ts, c, k - 1);
        let s2 = forks(a, ts[k - 1], c, a[ts[k - 1].last() as int].next.len() as int);
        assert forall|i: int| 0 <= i < s1.len() + s2.len() implies trace_ok(
            a.len() as int,
            #[trigger] (s1 + s2)[i],
            n + 1,
        ) by {
            if i < s1.len() {
                assert((s1 + s2)[i] == s1[i]);
            } else {
                assert((s1 + s2)[i] == s2[i - s1.len()]);
            }
        }
    }
}

/// Every live trace after `k` characters has `k + 1` states of the arena and starts at the root.
pub proof fn lemma_generation_ok<T>(a: Seq<StateView<T>>, input: Seq<char>, k: nat)
    requires
        wf_arena(a),
    ensures
        all_ok(a.len() as int, generation(a, input, k), k + 1 as int),
    decreases k,
{
    if k == 0 {
        let g = generation(a, input, 0);
        assert(g[0] == seq![0usize]);
        assert(trace_ok(a.len() as int, g[0], 1));
    } else {
        lemma_generation_ok(a, input, (k - 1) as nat);
        let prev = generation(a, input, (k - 1) as nat);
        lemma_step_ok(a, prev, input[k - 1], prev.len() as int, k as int);
    }
}

proof fn lemma_generation_dead<T>(a: Seq<StateView<T>>, input: Seq<char>, k: nat, m: nat)
    requires
        k <= m,
        generation(a, input, k).len() == 0,
    ensures
        generation(a, input, m).len() == 0,
    decreases m - k,
{
    if k < m {
        assert(generation(a, input, k + 1) == step(a, generation(a, input, k), input[k as int], 0));
        lemma_generation_dead(a, input, k + 1, m);
    }
}

pub(crate) proof fn lemma_accepted_props<T>(a: Seq<StateView<T>>, ts: Seq<Seq<usize>>, k: int)
    requires
        0 <= k <= ts.len(),
    ensures
        forall|i: int|
            0 <= i < accepted(a, ts, k).len() ==> ts.contains(#[trigger] accepted(a, ts, k)[i])
                && a[accepted(a, ts, k)[i].last() as int].acceptance,
    decreases k,
{
    if k > 0 {
        lemma_accepted_props(a, ts, k - 1);
        assert(ts[k - 1] == ts[k - 1]);
    }
}

/// Under a rank that orders `traces` as a total preorder, the winner among
/// the first `k` ranks at least as high as each of them, and strictly higher
/// than each that comes after it.
pub proof fn lemma_pick_index_max(
    traces: Seq<Seq<usize>>,
    rank: spec_fn(Seq<usize>, Seq<usize>) -> Ordering,
    k: int,
)
    requires
        1 <= k <= traces.len(),
        forall|i: int, j: int|
            0 <= i < traces.len() && 0 <= j < traces.len() ==> (#[trigger] rank(traces[i], traces[j])
                == Ordering::Greater <==> rank(traces[j], traces[i]) == Ordering::Less),
        forall|i: int, j: int, l: int|
            0 <= i < traces.len() && 0 <= j < traces.len() && 0 <= l < traces.len() && #[trigger] rank(
                traces[i],
                traces[j],
            ) != Ordering::Greater && #[trigger] rank(traces[j], traces[l]) != Ordering::Greater
                ==> rank(traces[i], traces[l]) != Ordering::Greater,
    ensures
        0 <= pick_index(traces, rank, k) < k,
        forall|i: int|
            0 <= i < k ==> rank(#[trigger] traces[i], traces[pick_index(traces, rank, k)])
                != Ordering::Greater,
        forall|i: int|
            pick_index(traces, rank, k) < i < k ==> rank(
                traces[pick_index(traces, rank, k)],
                #[trigger] traces[i],
            ) == Ordering::Greater,
    decreases k,
{
    if k == 1 {
        assert(rank(traces[0], traces[0]) == Ordering::Greater <==> rank(traces[0], traces[0])
            == Ordering::Less);
    } else {
        lemma_pick_index_max(traces, rank, k - 1);
        let b = pick_index(traces, rank, k - 1);
        let t = k - 1;
        if rank(traces[b], traces[t]) == Ordering::Greater {
            assert(rank(traces[t], traces[b]) == Ordering::Less);
        } else {
            assert forall|i: int| 0 <= i < k implies rank(#[trigger] traces[i], traces[t])
                != Ordering::Greater by {
                if i < k - 1 {
                    assert(rank(traces[i], traces[b]) != Ordering::Greater);
                } else {
                    assert(rank(traces[t], traces[t]) == Ordering::Greater <==> rank(
                        traces[t],
                        traces[t],
                    ) == Ordering::Less);
                }
            }
        }
    }
}

/// An optional position, as an integer.
pub open spec fn opt_int(o: Option<usize>) -> Option<int> {
    match o {
        Some(s) => Some(s as int),
        None => None,
    }
}

/// The message of a run that no trace survived.
pub open spec fn no_transition_message(input: Seq<char>) -> Seq<char> {
    "Couldn't process "@ + input
}

/// The message of a run whose surviving traces all end outside acceptance.
pub open spec fn no_acceptance_message() -> Seq<char> {
    "The string was exhausted before reaching an acceptance state"@
}

/// `trace` extended by the state `state`.
fn fork_trace<T>(trace: &Vec<usize>, state: &State<T>) -> (r: Vec<usize>)
    ensures
        r@ == trace@.push(state.index),
{
    let mut new_trace = copy_trace(trace);
    new_trace.push(state.index);
    new_trace
}

fn copy_trace(trace: &Vec<usize>) -> (r: Vec<usize>)
    ensures
        r@ == trace@,
{
    let mut r: Vec<usize> = Vec::new();
    let mut i: usize = 0;
    while i < trace.len()
        invariant
            i <= trace@.len(),
            r@ == trace@.subrange(0, i as int),
        decreases trace.len() - i,
    {
        r.push(trace[i]);
        i = i + 1;
    }
    assert(trace@.subrange(0, trace@.len() as int) =~= trace@);
    r
}

/// The outcome of a successful run: the winning final state and the captures.
pub struct Match {
    pub state: usize,
    pub captures: Vec<String>,
}

impl Match {
    /// The outcome that ends in `state` with `captures`.
    pub fn new(state: usize, captures: Vec<String>) -> (r: Match)
        ensures
            r.state == state,
            r.captures == captures,
    {
        Match { state: state, captures: captures }
    }
}

proof fn lemma_first_target_same<T>(
    a: Seq<StateView<T>>,
    b: Seq<StateView<T>>,
    next: Seq<usize>,
    p: spec_fn(ClassView) -> bool,
)
    requires
        forall|k: int|
            0 <= k < next.len() ==> b[#[trigger] next[k] as int].chars == a[next[k] as int].chars,
    ensures
        first_target(b, next, p) == first_target(a, next, p),
    decreases next.len(),
{
    if next.len() > 0 {
        assert(b[next[0] as int].chars == a[next[0] as int].chars);
        let m = next.drop_first();
        assert forall|k: int| 0 <= k < m.len() implies b[#[trigger] m[k] as int].chars == a[m[k] as int].chars by {
            assert(m[k] == next[k + 1]);
        }
        lemma_first_target_same(a, b, m, p);
    }
}

proof fn lemma_first_target_push<T>(
    b: Seq<StateView<T>>,
    next: Seq<usize>,
    r: usize,
    p: spec_fn(ClassView) -> bool,
)
    requires
        first_target(b, next, p) is None,
        p(b[r as int].chars),
    ensures
        first_target(b, next.push(r), p) == Some(r),
    decreases next.len(),
{
    if next.len() == 0 {
        assert(next.push(r)[0] == r);
    } else {
        assert(next.push(r).drop_first() =~= next.drop_first().push(r));
        lemma_first_target_push(b, next.drop_first(), r, p);
    }
}

pub(crate) proof fn lemma_extends_refl<T>(a: Seq<StateView<T>>)
    ensures
        extends(a, a),
{
    assert forall|i: int| 0 <= i < a.len() implies {
        &&& (#[trigger] a[i]).index == a[i].index
        &&& a[i].chars == a[i].chars
        &&& a[i].next.len() <= a[i].next.len()
        &&& a[i].next.subrange(0, a[i].next.len() as int) == a[i].next
    } by {
        assert(a[i].next.subrange(0, a[i].next.len() as int) =~= a[i].next);
    }
}

pub(crate) proof fn lemma_extends_trans<T>(a: Seq<StateView<T>>, b: Seq<StateView<T>>, c: Seq<StateView<T>>)
    requires
        extends(b, a),
        extends(c, b),
    ensures
        extends(c, a),
{
    assert forall|i: int| 0 <= i < a.len() implies {
        &&& (#[trigger] c[i]).index == a[i].index
        &&& c[i].chars == a[i].chars
        &&& a[i].next.len() <= c[i].next.len()
        &&& c[i].next.subrange(0, a[i].next.len() as int) == a[i].next
    } by {
        assert(b[i].next.subrange(0, a[i].next.len() as int) =~= c[i].next.subrange(
            0,
            b[i].next.len() as int,
        ).subrange(0, a[i].next.len() as int));
    }
}

proof fn lemma_first_target_extends<T>(
    a: Seq<StateView<T>>,
    b: Seq<StateView<T>>,
    n1: Seq<usize>,
    n2: Seq<usize>,
    p: spec_fn(ClassView) -> bool,
)
    requires
        extends(b, a),
        n1.len() <= n2.len(),
        n2.subrange(0, n1.len() as int) == n1,
        forall|k: int| 0 <= k < n1.len() ==> #[trigger] n1[k] < a.len(),
        first_target(a, n1, p) is Some,
    ensures
        first_target(b, n2, p) == first_target(a, n1, p),
    decreases n1.len(),
{
    assert(n2[0] == n1[0]);
    assert(b[n1[0] as int].chars == a[n1[0] as int].chars);
    if !p(a[n1[0] as int].chars) {
        let m1 = n1.drop_first();
        let m2 = n2.drop_first();
        assert(m2.subrange(0, m1.len() as int) =~= m1);
        assert forall|k: int| 0 <= k < m1.len() implies #[trigger] m1[k] < a.len() by {
            assert(m1[k] == n1[k + 1]);
        }
        lemma_first_target_extends(a, b, m1, m2, p);
    }
}

/// A walk along literal edges, once it reaches a state, keeps reaching the
/// same state in every automaton that grows from this one.
pub proof fn lemma_literal_walk_extends<T>(
    a: Seq<StateView<T>>,
    b: Seq<StateView<T>>,
    from: usize,
    q: Seq<char>,
)
    requires
        wf_arena(a),
        extends(b, a),
        from < a.len(),
        literal_walk(a, from, q) is Some,
    ensures
        literal_walk(b, from, q) == literal_walk(a, from, q),
        literal_walk(a, from, q)->0 < a.len(),
    decreases q.len(),
{
    if q.len() > 0 {
        let x = literal_walk(a, from, q.drop_last())->0;
        lemma_literal_walk_extends(a, b, from, q.drop_last());
        let n1 = a[x as int].next;
        let n2 = b[x as int].next;
        assert(forall|k: int| 0 <= k < n1.len() ==> #[trigger] n1[k] < a.len());
        lemma_find_edge_stable(a, b, x, allow_one(q.last()));
    }
}

/// An edge out of a state of `a` that exists in `a` leads to the same
/// state in every automaton that grows from `a`.
pub proof fn lemma_first_target_stable<T>(
    a: Seq<StateView<T>>,
    b: Seq<StateView<T>>,
    from: usize,
    p: spec_fn(ClassView) -> bool,
)
    requires
        wf_arena(a),
        extends(b, a),
        from < a.len(),
        first_target(a, a[from as int].next, p) is Some,
    ensures
        first_target(b, b[from as int].next, p) == first_target(a, a[from as int].next, p),
        first_target(a, a[from as int].next, p)->0 < a.len(),
{
    let n1 = a[from as int].next;
    assert(forall|k: int| 0 <= k < n1.len() ==> #[trigger] n1[k] < a.len());
    lemma_first_target_extends(a, b, n1, b[from as int].next, p);
    lemma_first_target_in(a, n1, p);
}

/// An edge that exists in `a` leads to the same state in every automaton
/// that grows from `a`.
pub proof fn lemma_find_edge_stable<T>(
    a: Seq<StateView<T>>,
    b: Seq<StateView<T>>,
    from: usize,
    g: ClassView,
)
    requires
        wf_arena(a),
        extends(b, a),
        from < a.len(),
        find_edge(a, from, g) is Some,
    ensures
        find_edge(b, from, g) == find_edge(a, from, g),
        find_edge(a, from, g)->0 < a.len(),
{
    lemma_first_target_stable(a, b, from, guard_is(g));
}

/// Walking `p` then `q` is walking `p + q`.
pub proof fn lemma_literal_walk_concat<T>(
    a: Seq<StateView<T>>,
    from: usize,
    p: Seq<char>,
    q: Seq<char>,
)
    ensures
        literal_walk(a, from, p + q) == match literal_walk(a, from, p) {
            Some(x) => literal_walk(a, x, q),
            None => None,
        },
    decreases q.len(),
{
    if q.len() == 0 {
        assert(p + q =~= p);
    } else {
        lemma_literal_walk_concat(a, from, p, q.drop_last());
        assert((p + q).drop_last() =~= p + q.drop_last());
        assert((p + q).last() == q.last());
    }
}

/// A walk that reaches a state passes through states on every prefix.
pub proof fn lemma_literal_walk_prefix<T>(a: Seq<StateView<T>>, from: usize, q: Seq<char>, k: int)
    requires
        0 <= k <= q.len(),
        literal_walk(a, from, q) is Some,
    ensures
        literal_walk(a, from, q.subrange(0, k)) is Some,
    decreases q.len() - k,
{
    if k < q.len() {
        lemma_literal_walk_prefix(a, from, q, k + 1);
        let q1 = q.subrange(0, k + 1);
        assert(q1.drop_last() =~= q.subrange(0, k));
    } else {
        assert(q.subrange(0, k) =~= q);
    }
}

proof fn lemma_first_target_in<T>(
    a: Seq<StateView<T>>,
    next: Seq<usize>,
    p: spec_fn(ClassView) -> bool,
)
    requires
        first_target(a, next, p) is Some,
    ensures
        next.contains(first_target(a, next, p)->0),
    decreases next.len(),
{
    if !p(a[next[0] as int].chars) {
        lemma_first_target_in(a, next.drop_first(), p);
        let k = choose|k: int| 0 <= k < next.drop_first().len() && next.drop_first()[k] == first_target(a, next, p)->0;
        assert(next[k + 1] == first_target(a, next, p)->0);
    } else {
        assert(next[0] == first_target(a, next, p)->0);
    }
}

} // verus!
