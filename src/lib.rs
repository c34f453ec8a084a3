//! Recognition of `/`-separated path patterns with named parameters,
//! built on a non-deterministic automaton.
use std::cmp::Ordering;
use std::collections::BTreeMap;
use vstd::prelude::*;

pub mod nfa;
pub mod params;

pub use params::Params;

use nfa::{
    CharacterClass, NFA, StateView, accepting_traces, agrees, allow_one, any_class, captures_of,
    chars_of, deny_one, extends, generation, literal_edge, literal_walk, no_acceptance_message,
    no_transition_message, parameter_edge, put_model, strings_view, wf_arena, winner,
};
use params::upsert_all;

verus! {

broadcast use vstd::laws_cmp::group_laws_cmp, vstd::std_specs::btree::group_btree_axioms;

/// What a registered pattern is made of: how many literal, parameter and
/// wildcard segments it has, and its parameter names in declaration order.
#[derive(Clone)]
pub struct Metadata {
    pub statics: usize,
    pub dynamics: usize,
    pub stars: usize,
    pub param_names: Vec<String>,
}

/// The specificity order: fewer wildcard segments rank higher, then fewer
/// parameter segments, then fewer literal segments; equal on all three
/// counts is equal rank.
pub open spec fn specificity_cmp(a: &Metadata, b: &Metadata) -> Ordering {
    if a.stars > b.stars {
        Ordering::Less
    } else if a.stars < b.stars {
        Ordering::Greater
    } else if a.dynamics > b.dynamics {
        Ordering::Less
    } else if a.dynamics < b.dynamics {
        Ordering::Greater
    } else if a.statics > b.statics {
        Ordering::Less
    } else if a.statics < b.statics {
        Ordering::Greater
    } else {
        Ordering::Equal
    }
}

impl Metadata {
    /// A pattern with no segments counted yet.
    pub fn new() -> (r: Metadata)
        ensures
            r.statics == 0,
            r.dynamics == 0,
            r.stars == 0,
            r.param_names@.len() == 0,
    {
        Metadata { statics: 0, dynamics: 0, stars: 0, param_names: Vec::new() }
    }

    /// Compares two patterns by specificity.
    pub fn cmp(&self, other: &Metadata) -> (r: Ordering)
        ensures
            r == specificity_cmp(self, other),
    {
        if self.stars > other.stars {
            Ordering::Less
        } else if self.stars < other.stars {
            Ordering::Greater
        } else if self.dynamics > other.dynamics {
            Ordering::Less
        } else if self.dynamics < other.dynamics {
            Ordering::Greater
        } else if self.statics > other.statics {
            Ordering::Less
        } else if self.statics < other.statics {
            Ordering::Greater
        } else {
            Ordering::Equal
        }
    }
}

impl PartialEq for Metadata {
    /// Equal rank: the same three counts.
    fn eq(&self, other: &Metadata) -> (r: bool) {
        self.statics == other.statics && self.dynamics == other.dynamics && self.stars
            == other.stars
    }
}

impl vstd::std_specs::cmp::PartialEqSpecImpl for Metadata {
    open spec fn obeys_eq_spec() -> bool {
        true
    }

    open spec fn eq_spec(&self, other: &Metadata) -> bool {
        specificity_cmp(self, other) == Ordering::Equal
    }
}

impl PartialOrd for Metadata {
    /// Always comparable: the specificity order is total.
    fn partial_cmp(&self, other: &Metadata) -> (r: Option<Ordering>) {
        Some(self.cmp(other))
    }
}

impl vstd::std_specs::cmp::PartialOrdSpecImpl for Metadata {
    open spec fn obeys_partial_cmp_spec() -> bool {
        true
    }

    open spec fn partial_cmp_spec(&self, other: &Metadata) -> Option<Ordering> {
        Some(specificity_cmp(self, other))
    }
}

/// The rank of two traces: by the specificity attached to their final states.
pub open spec fn trace_rank(a: Seq<StateView<Metadata>>, x: Seq<usize>, y: Seq<usize>) -> Ordering {
    if x.len() == 0 || y.len() == 0 || x.last() >= a.len() || y.last() >= a.len() {
        Ordering::Equal
    } else {
        match (a[x.last() as int].metadata, a[y.last() as int].metadata) {
            (Some(m1), Some(m2)) => specificity_cmp(&m1, &m2),
            _ => Ordering::Equal,
        }
    }
}

/// [`trace_rank`] as a comparator.
pub open spec fn specificity_rank(a: Seq<StateView<Metadata>>) -> spec_fn(Seq<usize>, Seq<usize>) -> Ordering {
    |x: Seq<usize>, y: Seq<usize>| trace_rank(a, x, y)
}

/// A pattern or path without its leading separator, if it has one.
pub open spec fn stripped(p: Seq<char>) -> Seq<char> {
    if p.len() > 0 && p[0] == '/' {
        p.drop_first()
    } else {
        p
    }
}

/// The first position at or after `i` that holds a separator, or the length of `s`.
pub open spec fn segment_end(s: Seq<char>, i: int) -> int
    decreases s.len() - i,
{
    if i < 0 || i >= s.len() {
        s.len() as int
    } else if s[i] == '/' {
        i
    } else {
        segment_end(s, i + 1)
    }
}

/// The segments of `s` from position `i` on: the text up to the next
/// separator, then the segments after it.
pub open spec fn segments_from(s: Seq<char>, i: int) -> Seq<Seq<char>>
    decreases s.len() - i,
{
    let j = segment_end(s, i);
    if j >= s.len() || j < i {
        seq![s.subrange(i, s.len() as int)]
    } else {
        seq![s.subrange(i, j)] + segments_from(s, j + 1)
    }
}

/// `s` split on separators; text without one is a single segment.
pub open spec fn segments(s: Seq<char>) -> Seq<Seq<char>> {
    segments_from(s, 0)
}

/// A parameter segment starts with the marker `:`.
pub open spec fn is_dynamic(seg: Seq<char>) -> bool {
    seg.len() > 0 && seg[0] == ':'
}

/// The parameter segments, in order.
pub open spec fn dynamic_segments(segs: Seq<Seq<char>>) -> Seq<Seq<char>>
    decreases segs.len(),
{
    if segs.len() == 0 {
        seq![]
    } else if is_dynamic(segs.last()) {
        dynamic_segments(segs.drop_last()).push(segs.last())
    } else {
        dynamic_segments(segs.drop_last())
    }
}

/// The number of literal segments.
pub open spec fn static_count(segs: Seq<Seq<char>>) -> nat
    decreases segs.len(),
{
    if segs.len() == 0 {
        0
    } else if is_dynamic(segs.last()) {
        static_count(segs.drop_last())
    } else {
        static_count(segs.drop_last()) + 1
    }
}

/// The parameter names: each parameter segment without its marker.
pub open spec fn param_names(segs: Seq<Seq<char>>) -> Seq<Seq<char>> {
    dynamic_segments(segs).map_values(|g: Seq<char>| g.drop_first())
}

/// Whether `m` describes a pattern made of `segs`.
pub open spec fn describes(m: Metadata, segs: Seq<Seq<char>>) -> bool {
    &&& m.statics == static_count(segs)
    &&& m.dynamics == dynamic_segments(segs).len()
    &&& m.stars == 0
    &&& strings_view(m.param_names@) == param_names(segs)
}

/// The state that the edges of a pattern made of `segs` lead to from the
/// root: before each segment but the first the separator's literal edge,
/// then the literal edges of a literal segment's characters, or the
/// parameter edge for a parameter segment.
pub open spec fn pattern_walk<T>(a: Seq<StateView<T>>, segs: Seq<Seq<char>>) -> Option<usize>
    decreases segs.len(),
{
    if segs.len() == 0 {
        Some(0)
    } else {
        match pattern_walk(a, segs.drop_last()) {
            None => None,
            Some(x) => {
                let y = if segs.len() > 1 {
                    literal_edge(a, x, '/')
                } else {
                    Some(x)
                };
                match y {
                    None => None,
                    Some(z) => if is_dynamic(segs.last()) {
                        parameter_edge(a, z)
                    } else {
                        literal_walk(a, z, segs.last())
                    },
                }
            },
        }
    }
}

proof fn lemma_pattern_walk_extends<T>(a: Seq<StateView<T>>, b: Seq<StateView<T>>, segs: Seq<Seq<char>>)
    requires
        wf_arena(a),
        extends(b, a),
        pattern_walk(a, segs) is Some,
    ensures
        pattern_walk(b, segs) == pattern_walk(a, segs),
        pattern_walk(a, segs)->0 < a.len(),
    decreases segs.len(),
{
    if segs.len() > 0 {
        let d = segs.drop_last();
        lemma_pattern_walk_extends(a, b, d);
        let x = pattern_walk(a, d)->0;
        let z = if segs.len() > 1 {
            nfa::lemma_find_edge_stable(a, b, x, allow_one('/'));
            literal_edge(a, x, '/')->0
        } else {
            x
        };
        if is_dynamic(segs.last()) {
            nfa::lemma_find_edge_stable(a, b, z, deny_one('/'));
        } else {
            nfa::lemma_literal_walk_extends(a, b, z, segs.last());
        }
    } else {
        assert(a.len() > 0);
    }
}

/// The automaton after inserting, from `from`, the literal edges for the
/// characters of `seg` one after the other, and the state they lead to.
pub open spec fn static_model<T>(a: Seq<StateView<T>>, from: usize, seg: Seq<char>) -> (
    Seq<StateView<T>>,
    usize,
)
    decreases seg.len(),
{
    if seg.len() == 0 {
        (a, from)
    } else {
        let prev = static_model(a, from, seg.drop_last());
        put_model(prev.0, prev.1, allow_one(seg.last()))
    }
}

/// The automaton after inserting, from `from`, the edge to a state that
/// denies only the separator, making that state loop on itself and open
/// and close a capture; and that state.
pub open spec fn dynamic_model<T>(a: Seq<StateView<T>>, from: usize) -> (Seq<StateView<T>>, usize) {
    let p = put_model(a, from, deny_one('/'));
    let r = p.1;
    (
        p.0.update(
            r as int,
            StateView {
                next: p.0[r as int].next.push(r),
                start_capture: true,
                end_capture: true,
                ..p.0[r as int]
            },
        ),
        r,
    )
}

/// The automaton after inserting the edges of a pattern made of `segs`
/// into `a`, and the state that they end in: before each segment but the
/// first the separator's literal edge, then a literal segment's characters
/// or a parameter segment's capturing state.
pub open spec fn compile_model<T>(a: Seq<StateView<T>>, segs: Seq<Seq<char>>) -> (
    Seq<StateView<T>>,
    usize,
)
    decreases segs.len(),
{
    if segs.len() == 0 {
        (a, 0)
    } else {
        let prev = compile_model(a, segs.drop_last());
        let sep = if segs.len() > 1 {
            put_model(prev.0, prev.1, allow_one('/'))
        } else {
            prev
        };
        if is_dynamic(segs.last()) {
            dynamic_model(sep.0, sep.1)
        } else {
            static_model(sep.0, sep.1, segs.last())
        }
    }
}

/// Inserting literal edges that all exist already changes nothing: the
/// insertion ends where the literal walk ends.
pub proof fn lemma_static_model_existing<T>(a: Seq<StateView<T>>, from: usize, seg: Seq<char>)
    requires
        literal_walk(a, from, seg) is Some,
    ensures
        static_model(a, from, seg) == (a, literal_walk(a, from, seg)->0),
    decreases seg.len(),
{
    if seg.len() > 0 {
        lemma_static_model_existing(a, from, seg.drop_last());
    }
}

/// Registering a pattern without parameter segments whose edges all exist
/// already, such as a pattern registered before, adds no state and no edge:
/// the insertion ends where the pattern's walk ends.
pub proof fn lemma_literal_pattern_reuses_states<T>(a: Seq<StateView<T>>, segs: Seq<Seq<char>>)
    requires
        forall|k: int| 0 <= k < segs.len() ==> !is_dynamic(#[trigger] segs[k]),
        pattern_walk(a, segs) is Some,
    ensures
        compile_model(a, segs) == (a, pattern_walk(a, segs)->0),
    decreases segs.len(),
{
    if segs.len() > 0 {
        let d = segs.drop_last();
        assert forall|k: int| 0 <= k < d.len() implies !is_dynamic(#[trigger] d[k]) by {
            assert(d[k] == segs[k]);
        }
        assert(!is_dynamic(segs[segs.len() - 1]));
        lemma_literal_pattern_reuses_states(a, d);
        let x = pattern_walk(a, d)->0;
        let z = if segs.len() > 1 {
            literal_edge(a, x, '/')->0
        } else {
            x
        };
        lemma_static_model_existing(a, z, segs.last());
    }
}

/// Text without a parameter marker.
pub open spec fn no_colon(q: Seq<char>) -> bool {
    !q.contains(':')
}

/// `b` keeps the acceptance and metadata of every state of `a`, and its
/// new states are neither accepting nor carry metadata.
pub open spec fn keeps_marks<T>(b: Seq<StateView<T>>, a: Seq<StateView<T>>) -> bool {
    &&& forall|i: int|
        0 <= i < a.len() ==> (#[trigger] b[i]).acceptance == a[i].acceptance && b[i].metadata
            == a[i].metadata
    &&& forall|i: int| a.len() <= i < b.len() ==> !(#[trigger] b[i]).acceptance && b[i].metadata is None
}

proof fn lemma_segment_end(s: Seq<char>, i: int, j: int)
    requires
        0 <= i <= j <= s.len(),
        forall|k: int| i <= k < j ==> s[k] != '/',
        j == s.len() || s[j] == '/',
    ensures
        segment_end(s, i) == j,
    decreases j - i,
{
    if i < j {
        lemma_segment_end(s, i + 1, j);
    }
}

proof fn lemma_no_colon_prefix(s: Seq<char>, k1: int, k2: int)
    requires
        0 <= k1 <= k2 <= s.len(),
        no_colon(s.subrange(0, k2)),
    ensures
        no_colon(s.subrange(0, k1)),
{
    if s.subrange(0, k1).contains(':') {
        let p = choose|p: int| 0 <= p < k1 && s.subrange(0, k1)[p] == ':';
        assert(s.subrange(0, k2)[p] == ':');
    }
}

proof fn lemma_keeps_marks_refl<T>(a: Seq<StateView<T>>)
    ensures
        keeps_marks(a, a),
{
}

proof fn lemma_keeps_marks_trans<T>(a: Seq<StateView<T>>, b: Seq<StateView<T>>, c: Seq<StateView<T>>)
    requires
        keeps_marks(b, a),
        keeps_marks(c, b),
        a.len() <= b.len(),
        b.len() <= c.len(),
    ensures
        keeps_marks(c, a),
{
    assert forall|i: int| a.len() <= i < c.len() implies !(#[trigger] c[i]).acceptance && c[i].metadata is None by {
        if i < b.len() {
            assert(c[i].acceptance == b[i].acceptance);
        }
    }
}

/// Appends the literal edges for the characters of `segment`, from `state`.
fn process_static_segment<T>(segment: &str, nfa: &mut NFA<T>, state: usize) -> (r: usize)
    requires
        old(nfa).wf(),
        state < old(nfa)@.len(),
        old(nfa)@.len() + segment@.len() < usize::MAX,
    ensures
        final(nfa).wf(),
        extends(final(nfa)@, old(nfa)@),
        keeps_marks(final(nfa)@, old(nfa)@),
        final(nfa)@.len() <= old(nfa)@.len() + segment@.len(),
        literal_walk(final(nfa)@, state, segment@) == Some(r),
        r < final(nfa)@.len(),
        final(nfa)@ == static_model(old(nfa)@, state, segment@).0,
        r == static_model(old(nfa)@, state, segment@).1,
        literal_walk(old(nfa)@, state, segment@) is Some ==> final(nfa)@ == old(nfa)@,
{
    let ghost a0 = nfa@;
    let chars = chars_of(segment);
    let mut current = state;
    let mut k: usize = 0;
    proof {
        nfa::lemma_extends_refl(a0);
        lemma_keeps_marks_refl(a0);
        assert(segment@.subrange(0, 0).len() == 0);
    }
    while k < chars.len()
        invariant
            chars@ == segment@,
            k <= chars@.len(),
            nfa.wf(),
            extends(nfa@, a0),
            keeps_marks(nfa@, a0),
            a0.len() <= nfa@.len() <= a0.len() + k,
            a0.len() + segment@.len() < usize::MAX,
            state < a0.len(),
            current < nfa@.len(),
            wf_arena(a0),
            literal_walk(nfa@, state, segment@.subrange(0, k as int)) == Some(current),
            nfa@ == static_model(a0, state, segment@.subrange(0, k as int)).0,
            current == static_model(a0, state, segment@.subrange(0, k as int)).1,
        decreases chars.len() - k,
    {
        let ghost before = nfa@;
        let cls = CharacterClass::valid_char(chars[k]);
        let next = nfa.put(current, cls);
        proof {
            let q = segment@.subrange(0, k as int);
            nfa::lemma_literal_walk_extends(before, nfa@, state, q);
            let q1 = segment@.subrange(0, k + 1);
            assert(q1.drop_last() =~= q);
            assert(q1.last() == chars@[k as int]);
            nfa::lemma_extends_trans(a0, before, nfa@);
            lemma_keeps_marks_trans(a0, before, nfa@);
        }
        current = next;
        k = k + 1;
    }
    proof {
        assert(segment@.subrange(0, chars@.len() as int) =~= segment@);
        if literal_walk(a0, state, segment@) is Some {
            lemma_static_model_existing(a0, state, segment@);
        }
    }
    current
}

/// Appends a state that takes any character but the separator, loops on
/// itself and opens and closes a capture.
fn process_dynamic_segment<T>(nfa: &mut NFA<T>, state: usize) -> (r: usize)
    requires
        old(nfa).wf(),
        state < old(nfa)@.len(),
        old(nfa)@.len() < usize::MAX,
    ensures
        final(nfa).wf(),
        extends(final(nfa)@, old(nfa)@),
        keeps_marks(final(nfa)@, old(nfa)@),
        final(nfa)@.len() <= old(nfa)@.len() + 1,
        r < final(nfa)@.len(),
        final(nfa)@[r as int].chars == deny_one('/'),
        final(nfa)@[r as int].next.contains(r),
        final(nfa)@[r as int].start_capture,
        final(nfa)@[r as int].end_capture,
        parameter_edge(final(nfa)@, state) == Some(r),
        final(nfa)@ == dynamic_model(old(nfa)@, state).0,
        r == dynamic_model(old(nfa)@, state).1,
{
    let ghost a0 = nfa@;
    let cls = CharacterClass::invalid_char('/');
    let r = nfa.put(state, cls);
    let ghost a1 = nfa@;
    nfa.put_state(r, r);
    let ghost a2 = nfa@;
    nfa.start_capture(r);
    let ghost a3 = nfa@;
    nfa.end_capture(r);
    proof {
        nfa::lemma_extends_trans(a0, a1, a2);
        nfa::lemma_extends_trans(a0, a2, a3);
        nfa::lemma_extends_trans(a0, a3, nfa@);
        lemma_keeps_marks_trans(a0, a1, a2);
        lemma_keeps_marks_trans(a0, a2, a3);
        lemma_keeps_marks_trans(a0, a3, nfa@);
        assert(a2[r as int].next.last() == r);
        assert(a2[r as int].next.contains(r));
        nfa::lemma_find_edge_stable(a1, nfa@, state, deny_one('/'));
        assert(nfa@ =~~= a1.update(
            r as int,
            StateView { next: a1[r as int].next.push(r), start_capture: true, end_capture: true, ..a1[r as int] },
        ));
    }
    r
}

/// Two patterns registered one after the other reach the same states along
/// their common literal prefix: the second registration walks through the
/// states that the first one created instead of making new ones, whatever
/// the rest of either pattern holds.
pub proof fn lemma_edge_sharing<T>(
    r0: &Router<T>,
    r1: &Router<T>,
    r2: &Router<T>,
    p1: Seq<char>,
    h1: T,
    p2: Seq<char>,
    h2: T,
    k: int,
)
    requires
        r0.wf(),
        r1.added(r0, p1, h1),
        r2.added(r1, p2, h2),
        0 <= k <= stripped(p1).len(),
        k <= stripped(p2).len(),
        stripped(p1).subrange(0, k) == stripped(p2).subrange(0, k),
        no_colon(stripped(p1).subrange(0, k)),
    ensures
        literal_walk(r1.automaton(), 0, stripped(p1).subrange(0, k)) is Some,
        literal_walk(r2.automaton(), 0, stripped(p2).subrange(0, k)) == literal_walk(
            r1.automaton(),
            0,
            stripped(p1).subrange(0, k),
        ),
{
    let q = stripped(p1).subrange(0, k);
    assert(literal_walk(r1.automaton(), 0, q) is Some);
    nfa::lemma_literal_walk_extends(r1.automaton(), r2.automaton(), 0, q);
}

/// Recognition depends on nothing but the registered patterns and the
/// path: recognizing one path twice gives the same handler and the same
/// parameters, or the same error.
pub proof fn lemma_recognition_deterministic<T>(
    router: &Router<T>,
    path: Seq<char>,
    r1: Result<Match<&T>, String>,
    r2: Result<Match<&T>, String>,
)
    requires
        router.recognition(path, r1),
        router.recognition(path, r2),
    ensures
        r1 is Ok <==> r2 is Ok,
        r1 is Ok ==> *r1->Ok_0.handler == *r2->Ok_0.handler && r1->Ok_0.params@
            == r2->Ok_0.params@,
        r1 is Err ==> r1->Err_0@ == r2->Err_0@,
{
}

/// Specificity is a total preorder: one pattern ranks above another exactly
/// when the other ranks below it, and ranking no higher is transitive.
pub proof fn lemma_specificity_preorder(x: &Metadata, y: &Metadata, z: &Metadata)
    ensures
        specificity_cmp(x, y) == Ordering::Greater <==> specificity_cmp(y, x) == Ordering::Less,
        specificity_cmp(x, y) != Ordering::Greater && specificity_cmp(y, z) != Ordering::Greater
            ==> specificity_cmp(x, z) != Ordering::Greater,
{
}

/// Among the registered patterns that match a path, the winner is at least
/// as specific as every other match, and strictly more specific than every
/// match discovered after it: ties go to the one discovered last.
pub proof fn lemma_most_specific_wins<T>(router: &Router<T>, path: Seq<char>)
    requires
        router.wf(),
        accepting_traces(router.automaton(), stripped(path)).len() > 0,
    ensures
        ({
            let a = router.automaton();
            let s = stripped(path);
            let acc = accepting_traces(a, s);
            let b = nfa::pick_index(acc, specificity_rank(a), acc.len() as int);
            &&& 0 <= b < acc.len()
            &&& winner(a, s, specificity_rank(a)) == acc[b]
            &&& forall|i: int|
                0 <= i < acc.len() ==> trace_rank(a, #[trigger] acc[i], acc[b]) != Ordering::Greater
            &&& forall|i: int|
                b < i < acc.len() ==> trace_rank(a, acc[b], #[trigger] acc[i]) == Ordering::Greater
        }),
{
    let a = router.automaton();
    let s = stripped(path);
    let g = generation(a, s, s.len());
    let acc = accepting_traces(a, s);
    let rank = specificity_rank(a);
    nfa::lemma_generation_ok(a, s, s.len());
    nfa::lemma_accepted_props(a, g, g.len() as int);
    assert forall|i: int| 0 <= i < acc.len() implies {
        &&& (#[trigger] acc[i]).len() > 0
        &&& acc[i].last() < a.len()
        &&& a[acc[i].last() as int].metadata is Some
    } by {
        assert(g.contains(acc[i]));
        let gi = choose|gi: int| 0 <= gi < g.len() && g[gi] == acc[i];
        assert(nfa::trace_ok(a.len() as int, g[gi], s.len() + 1 as int));
        assert(acc[i][s.len() as int] < a.len());
    }
    assert forall|i: int, j: int|
        0 <= i < acc.len() && 0 <= j < acc.len() implies (#[trigger] rank(acc[i], acc[j])
        == Ordering::Greater <==> rank(acc[j], acc[i]) == Ordering::Less) by {
        let mi = a[acc[i].last() as int].metadata->0;
        let mj = a[acc[j].last() as int].metadata->0;
        lemma_specificity_preorder(&mi, &mj, &mj);
    }
    assert forall|i: int, j: int, l: int|
        0 <= i < acc.len() && 0 <= j < acc.len() && 0 <= l < acc.len() && #[trigger] rank(
            acc[i],
            acc[j],
        ) != Ordering::Greater && #[trigger] rank(acc[j], acc[l]) != Ordering::Greater implies rank(
        acc[i],
        acc[l],
    ) != Ordering::Greater by {
        let mi = a[acc[i].last() as int].metadata->0;
        let mj = a[acc[j].last() as int].metadata->0;
        let ml = a[acc[l].last() as int].metadata->0;
        lemma_specificity_preorder(&mi, &mj, &ml);
    }
    nfa::lemma_pick_index_max(acc, rank, acc.len() as int);
}

/// Ranks two traces by the specificity attached to their final states.
fn rank_traces(nfa: &NFA<Metadata>, x: &[usize], y: &[usize]) -> (o: Ordering)
    ensures
        o == trace_rank(nfa@, x@, y@),
{
    if x.len() == 0 || y.len() == 0 {
        return Ordering::Equal;
    }
    let i = x[x.len() - 1];
    let j = y[y.len() - 1];
    if i >= nfa.len() || j >= nfa.len() {
        return Ordering::Equal;
    }
    match (&nfa.get(i).metadata, &nfa.get(j).metadata) {
        (Some(m1), Some(m2)) => m1.cmp(m2),
        _ => Ordering::Equal,
    }
}

/// The outcome of a recognition: the handler of the winning pattern and
/// the parameters that the path bound.
pub struct Match<T> {
    pub handler: T,
    pub params: Params,
}

impl<T> Match<T> {
    /// The outcome with `handler` and `params`.
    pub fn new(handler: T, params: Params) -> (r: Match<T>)
        ensures
            r.handler == handler,
            r.params == params,
    {
        Match { handler: handler, params: params }
    }
}

/// A set of registered patterns, each with its handler.
#[derive(Clone)]
pub struct Router<T> {
    nfa: NFA<Metadata>,
    handlers: BTreeMap<usize, T>,
}

impl<T> Router<T> {
    /// The automaton that the patterns were compiled into.
    pub closed spec fn automaton(&self) -> Seq<StateView<Metadata>> {
        self.nfa@
    }

    /// The handlers, keyed by the identity of the pattern's accepting state.
    pub closed spec fn handler_map(&self) -> Map<usize, T> {
        self.handlers@
    }

    /// Every accepting state has a handler and the description of its pattern.
    pub open spec fn wf(&self) -> bool {
        &&& wf_arena(self.automaton())
        &&& forall|i: int|
            0 <= i < self.automaton().len() && (#[trigger] self.automaton()[i]).acceptance
                ==> self.handler_map().contains_key(i as usize) && self.automaton()[i].metadata is Some
    }

    /// The accepting state that wins for `path`.
    pub open spec fn winning_state(&self, path: Seq<char>) -> usize {
        let s = stripped(path);
        winner(self.automaton(), s, specificity_rank(self.automaton())).last()
    }

    /// The parameters that `path` binds: the winning pattern's names paired
    /// in order with the captures of the winning trace.
    pub open spec fn bound_params(&self, path: Seq<char>) -> Seq<(Seq<char>, Seq<char>)> {
        let s = stripped(path);
        let a = self.automaton();
        let w = winner(a, s, specificity_rank(a));
        let names = strings_view(a[w.last() as int].metadata->0.param_names@);
        let caps = captures_of(a, s, w);
        upsert_all(seq![], names, caps, if names.len() <= caps.len() { names.len() as int } else { caps.len() as int })
    }

    /// What recognizing `path` returns.
    pub open spec fn recognition(&self, path: Seq<char>, r: Result<Match<&T>, String>) -> bool {
        let s = stripped(path);
        let a = self.automaton();
        &&& r is Ok <==> accepting_traces(a, s).len() > 0
        &&& generation(a, s, s.len()).len() == 0 ==> r is Err && r->Err_0@ == no_transition_message(s)
        &&& generation(a, s, s.len()).len() > 0 && accepting_traces(a, s).len() == 0 ==> r is Err
            && r->Err_0@ == no_acceptance_message()
        &&& r is Ok ==> {
            &&& *r->Ok_0.handler == self.handler_map()[self.winning_state(path)]
            &&& r->Ok_0.params@ == self.bound_params(path)
        }
    }

    /// Matches `path` against the registered patterns. Among the patterns
    /// that match, the most specific wins (the last registered among equally
    /// specific ones); its handler is returned with the parameters that the
    /// path binds.
    pub fn recognize<'a>(&'a self, path: &str) -> (r: Result<Match<&'a T>, String>)
        requires
            self.wf(),
        ensures
            self.recognition(path@, r),
    {
        let n = path.unicode_len();
        let rest: &str = if n > 0 && path.get_char(0) == '/' {
            path.substring_char(1, n)
        } else {
            path
        };
        proof {
            if n > 0 && path@[0] == '/' {
                assert(rest@ =~= stripped(path@));
            }
        }
        let nfa = &self.nfa;
        let ghost a = nfa@;
        let ranker = |x: &[usize], y: &[usize]| -> (o: Ordering)
            ensures
                o == trace_rank(nfa@, x@, y@),
            { rank_traces(nfa, x, y) };
        proof {
            assert(agrees(ranker, specificity_rank(a)));
        }
        let result = nfa.process(rest, ranker);
        match result {
            Ok(nfa_match) => {
                let state = nfa.get(nfa_match.state);
                let metadata = match &state.metadata {
                    Some(m) => m,
                    // unreachable: the winning state accepts, so it carries metadata
                    None => {
                        return Err(String::new());
                    },
                };
                let names = &metadata.param_names;
                let captures = &nfa_match.captures;
                let count = if names.len() <= captures.len() {
                    names.len()
                } else {
                    captures.len()
                };
                let mut map = Params::new();
                let mut i: usize = 0;
                while i < count
                    invariant
                        i <= count,
                        count <= names@.len(),
                        count <= captures@.len(),
                        map@ == upsert_all(seq![], strings_view(names@), strings_view(captures@), i as int),
                    decreases count - i,
                {
                    map.insert(names[i].clone(), captures[i].clone());
                    i = i + 1;
                }
                match self.handlers.get(&nfa_match.state) {
                    Some(handler) => Ok(Match::new(handler, map)),
                    // unreachable: every accepting state has a handler
                    None => Err(String::new()),
                }
            },
            Err(message) => Err(message),
        }
    }

    /// `self` is `old` with the pattern `s` registered to `dest`, its
    /// accepting state being `f`: the automaton is exactly the one that
    /// inserting the pattern's edges into the old one gives, with `f` marked
    /// accepting and carrying the pattern's description, and nothing else changed.
    pub open spec fn registered(&self, old: &Router<T>, s: Seq<char>, dest: T, f: usize) -> bool {
        &&& f < self.automaton().len()
        &&& f == compile_model(old.automaton(), segments(s)).1
        &&& self.automaton() == compile_model(old.automaton(), segments(s)).0.update(
            f as int,
            StateView {
                acceptance: true,
                metadata: self.automaton()[f as int].metadata,
                ..compile_model(old.automaton(), segments(s)).0[f as int]
            },
        )
        &&& self.automaton()[f as int].acceptance
        &&& self.automaton()[f as int].metadata matches Some(m) && describes(m, segments(s))
        &&& self.handler_map() == old.handler_map().insert(f, dest)
        &&& pattern_walk(self.automaton(), segments(s)) == Some(f)
        &&& no_colon(s) ==> literal_walk(self.automaton(), 0, s) == Some(f)
        &&& forall|i: int|
            0 <= i < old.automaton().len() && i != f ==> (#[trigger] self.automaton()[i]).acceptance
                == old.automaton()[i].acceptance && self.automaton()[i].metadata
                == old.automaton()[i].metadata
    }

    /// `self` is `old` after registering `route` with handler `dest`: the
    /// automaton is the old one with the pattern's missing edges inserted
    /// (see `registered`), the pattern's accepting state carries its
    /// description and handler, and every literal prefix of the pattern
    /// (one without a parameter marker) can be walked from the root.
    pub open spec fn added(&self, old: &Router<T>, route: Seq<char>, dest: T) -> bool {
        let s = stripped(route);
        &&& self.wf()
        &&& extends(self.automaton(), old.automaton())
        &&& exists|f: usize| #[trigger] self.registered(old, s, dest, f)
        &&& forall|k: int|
            0 <= k <= s.len() && no_colon(s.subrange(0, k)) ==> (#[trigger] literal_walk(
                self.automaton(),
                0,
                s.subrange(0, k),
            )) is Some
    }

    /// Registers the pattern `route` with handler `dest`. Literal segments
    /// become chains of single-character edges, shared with earlier patterns
    /// wherever they agree; a segment `:name` becomes a capturing state that
    /// takes any characters but the separator.
    #[verifier::spinoff_prover]
    #[verifier::rlimit(40)]
    pub fn add(&mut self, route: &str, dest: T)
        requires
            old(self).wf(),
            old(self).automaton().len() + route@.len() < usize::MAX,
        ensures
            final(self).added(old(self), route@, dest),
    {
        let n0 = route.unicode_len();
        let rest: &str = if n0 > 0 && route.get_char(0) == '/' {
            route.substring_char(1, n0)
        } else {
            route
        };
        let ghost s = stripped(route@);
        proof {
            if n0 > 0 && route@[0] == '/' {
                assert(rest@ =~= s);
            }
        }
        let chars = chars_of(rest);
        let n = chars.len();
        let ghost a0 = self.nfa@;
        let mut state: usize = 0;
        let mut metadata = Metadata::new();
        let mut i: usize = 0;
        let mut pos: usize = 0;
        let mut finished = false;
        let ghost mut done: Seq<Seq<char>> = seq![];
        proof {
            nfa::lemma_extends_refl(a0);
            lemma_keeps_marks_refl(a0);
            assert(strings_view(metadata.param_names@) =~= param_names(done));
            assert(s.subrange(0, 0) =~= Seq::<char>::empty());
            assert forall|k: int| 0 <= k <= 0 && no_colon(s.subrange(0, k)) implies
                (#[trigger] literal_walk(self.nfa@, 0, s.subrange(0, k))) is Some by {
                assert(s.subrange(0, k) =~= Seq::<char>::empty());
            }
        }
        while !finished
            invariant
                chars@ == s,
                rest@ == s,
                n == s.len(),
                a0 == old(self).nfa@,
                self.handlers@ == old(self).handlers@,
                wf_arena(a0),
                a0.len() + n < usize::MAX,
                self.nfa.wf(),
                extends(self.nfa@, a0),
                keeps_marks(self.nfa@, a0),
                a0.len() <= self.nfa@.len() <= a0.len() + pos,
                state < self.nfa@.len(),
                i <= n,
                pos <= n,
                !finished ==> {
                    &&& pos == (if i == 0 { 0 } else { i - 1 })
                    &&& (i > 0 ==> s[i - 1] == '/')
                    &&& segments(s) == done + segments_from(s, i as int)
                    &&& done.len() <= i
                    &&& (i == 0 <==> done.len() == 0)
                },
                pattern_walk(self.nfa@, done) == Some(state),
                self.nfa@ == compile_model(a0, done).0,
                state == compile_model(a0, done).1,
                finished ==> pos == n && segments(s) == done && done.len() <= n + 1,
                metadata.statics == static_count(done),
                metadata.dynamics == dynamic_segments(done).len(),
                metadata.stars == 0,
                strings_view(metadata.param_names@) == param_names(done),
                static_count(done) + dynamic_segments(done).len() == done.len(),
                no_colon(s.subrange(0, pos as int)) ==> literal_walk(
                    self.nfa@,
                    0,
                    s.subrange(0, pos as int),
                ) == Some(state),
                forall|k: int|
                    0 <= k <= pos && no_colon(s.subrange(0, k)) ==> (#[trigger] literal_walk(
                        self.nfa@,
                        0,
                        s.subrange(0, k),
                    )) is Some,
            decreases n + 1 - i + (if finished { 0int } else { 1int }),
        {
            let ghost before_sep = self.nfa@;
            let ghost state_before = state;
            if i > 0 {
                let cls = CharacterClass::valid_char('/');
                state = self.nfa.put(state, cls);
                proof {
                    let after = self.nfa@;
                    let q = s.subrange(0, pos as int);
                    let q1 = s.subrange(0, i as int);
                    assert(q1.drop_last() =~= q);
                    if no_colon(q1) {
                        lemma_no_colon_prefix(s, pos as int, i as int);
                        nfa::lemma_literal_walk_extends(before_sep, after, 0, q);
                    }
                    assert forall|k: int|
                        0 <= k <= i && no_colon(s.subrange(0, k)) implies (#[trigger] literal_walk(
                            after,
                            0,
                            s.subrange(0, k),
                        )) is Some by {
                        if k <= pos {
                            nfa::lemma_literal_walk_extends(before_sep, after, 0, s.subrange(0, k));
                        }
                    }
                    lemma_keeps_marks_trans(a0, before_sep, after);
                    nfa::lemma_extends_trans(a0, before_sep, after);
                }
            }
            let ghost seg_start = self.nfa@;
            let ghost mid = state;
            proof {
                if i == 0 {
                    nfa::lemma_extends_refl(seg_start);
                }
            }
            let mut j = i;
            while j < n && chars[j] != '/'
                invariant
                    chars@ == s,
                    n == s.len(),
                    i <= j <= n,
                    forall|k: int| i <= k < j ==> s[k] != '/',
                decreases n - j,
            {
                j = j + 1;
            }
            proof {
                lemma_segment_end(s, i as int, j as int);
            }
            let ghost seg = s.subrange(i as int, j as int);
            if j > i && chars[i] == ':' {
                state = process_dynamic_segment(&mut self.nfa, state);
                metadata.dynamics = metadata.dynamics + 1;
                let name = rest.substring_char(i + 1, j).to_owned();
                let ghost names0 = metadata.param_names@;
                metadata.param_names.push(name);
                proof {
                    let d1 = done.push(seg);
                    assert(d1.drop_last() =~= done);
                    assert(seg.drop_first() =~= s.subrange(i + 1, j as int));
                    assert(dynamic_segments(d1) == dynamic_segments(done).push(seg));
                    assert(strings_view(metadata.param_names@) =~= strings_view(names0).push(name@));
                    assert(param_names(d1) =~= param_names(done).push(seg.drop_first()));
                    assert forall|k: int|
                        i < k <= n implies !no_colon(#[trigger] s.subrange(0, k)) by {
                        assert(s.subrange(0, k)[i as int] == ':');
                    }
                }
            } else {
                let segment = rest.substring_char(i, j);
                state = process_static_segment(segment, &mut self.nfa, state);
                metadata.statics = metadata.statics + 1;
                proof {
                    let d1 = done.push(seg);
                    assert(d1.drop_last() =~= done);
                    let after = self.nfa@;
                    let pre = s.subrange(0, i as int);
                    if no_colon(pre) {
                        nfa::lemma_literal_walk_extends(seg_start, after, 0, pre);
                    }
                    assert forall|k: int|
                        i < k <= j && no_colon(s.subrange(0, k)) implies (#[trigger] literal_walk(
                            after,
                            0,
                            s.subrange(0, k),
                        )) is Some by {
                        lemma_no_colon_prefix(s, i as int, k);
                        nfa::lemma_literal_walk_prefix(after, mid, seg, k - i);
                        assert(s.subrange(0, k) =~= pre + seg.subrange(0, k - i));
                        nfa::lemma_literal_walk_concat(after, 0, pre, seg.subrange(0, k - i));
                    }
                    if no_colon(s.subrange(0, j as int)) {
                        lemma_no_colon_prefix(s, i as int, j as int);
                        assert(s.subrange(0, j as int) =~= pre + seg);
                        nfa::lemma_literal_walk_concat(after, 0, pre, seg);
                    }
                }
            }
            proof {
                let after = self.nfa@;
                assert forall|k: int|
                    0 <= k <= i && no_colon(s.subrange(0, k)) implies (#[trigger] literal_walk(
                        after,
                        0,
                        s.subrange(0, k),
                    )) is Some by {
                    nfa::lemma_literal_walk_extends(seg_start, after, 0, s.subrange(0, k));
                }
                lemma_keeps_marks_trans(a0, seg_start, after);
                nfa::lemma_extends_trans(a0, seg_start, after);
                let d1 = done.push(seg);
                assert(d1.drop_last() =~= done);
                assert(seg.len() == j - i);
                nfa::lemma_extends_trans(before_sep, seg_start, after);
                lemma_pattern_walk_extends(before_sep, after, done);
                if i > 0 {
                    nfa::lemma_find_edge_stable(seg_start, after, state_before, allow_one('/'));
                }
                done = d1;
            }
            if j >= n {
                finished = true;
                pos = n;
            } else {
                i = j + 1;
                pos = j;
            }
        }
        let ghost a1 = self.nfa@;
        self.nfa.acceptance(state);
        self.nfa.metadata(state, metadata);
        self.handlers.insert(state, dest);
        proof {
            let a2 = self.nfa@;
            assert(s.subrange(0, n as int) =~= s);
            assert forall|k: int|
                0 <= k <= n && no_colon(s.subrange(0, k)) implies (#[trigger] literal_walk(
                    a2,
                    0,
                    s.subrange(0, k),
                )) is Some by {
                nfa::lemma_literal_walk_extends(a1, a2, 0, s.subrange(0, k));
            }
            if no_colon(s) {
                nfa::lemma_literal_walk_extends(a1, a2, 0, s);
            }
            lemma_pattern_walk_extends(a1, a2, done);
            nfa::lemma_extends_trans(a0, a1, a2);
            assert(a2 =~~= a1.update(
                state as int,
                StateView { acceptance: true, metadata: a2[state as int].metadata, ..a1[state as int] },
            ));
            assert(self.registered(old(self), s, dest, state));
        }
    }

    /// The automaton, for inspection.
    pub fn nfa(&self) -> (r: &NFA<Metadata>)
        ensures
            r@ == self.automaton(),
    {
        &self.nfa
    }

    /// No patterns.
    pub fn new() -> (r: Router<T>)
        ensures
            r.wf(),
            r.automaton() == seq![nfa::fresh_state::<Metadata>(0, any_class())],
            r.automaton().len() == 1,
            !r.automaton()[0].acceptance,
            r.handler_map() == Map::<usize, T>::empty(),
    {
        Router { nfa: NFA::new(), handlers: BTreeMap::new() }
    }
}

} // verus!
