use route_recognizer::nfa::{CharacterClass, NFA};

fn valid(c: char) -> CharacterClass {
    CharacterClass::valid_char(c)
}

fn invalid(c: char) -> CharacterClass {
    CharacterClass::invalid_char(c)
}

#[test]
fn basic_test() {
    let mut nfa = NFA::<()>::new();
    let a = nfa.put(0, CharacterClass::valid("h"));
    let b = nfa.put(a, CharacterClass::valid("e"));
    let c = nfa.put(b, CharacterClass::valid("l"));
    let d = nfa.put(c, CharacterClass::valid("l"));
    let e = nfa.put(d, CharacterClass::valid("o"));
    nfa.acceptance(e);

    let m = nfa.process("hello", |a, b| a.len().cmp(&b.len()));

    assert!(m.unwrap().state == e, "You didn't get the right final state");
}

#[test]
fn multiple_solutions() {
    let mut nfa = NFA::<()>::new();
    let a1 = nfa.put(0, CharacterClass::valid("n"));
    let b1 = nfa.put(a1, CharacterClass::valid("e"));
    let c1 = nfa.put(b1, CharacterClass::valid("w"));
    nfa.acceptance(c1);

    let a2 = nfa.put(0, CharacterClass::invalid(""));
    let b2 = nfa.put(a2, CharacterClass::invalid(""));
    let c2 = nfa.put(b2, CharacterClass::invalid(""));
    nfa.acceptance(c2);

    let m = nfa.process("new", |a, b| a.len().cmp(&b.len()));

    assert!(m.unwrap().state == c2, "The two states were not found");
}

#[test]
fn multiple_paths() {
    let mut nfa = NFA::<()>::new();
    let a = nfa.put(0, CharacterClass::valid("t")); // t
    let b1 = nfa.put(a, CharacterClass::valid("h")); // th
    let c1 = nfa.put(b1, CharacterClass::valid("o")); // tho
    let d1 = nfa.put(c1, CharacterClass::valid("m")); // thom
    let e1 = nfa.put(d1, CharacterClass::valid("a")); // thoma
    let f1 = nfa.put(e1, CharacterClass::valid("s")); // thomas

    let b2 = nfa.put(a, CharacterClass::valid("o")); // to
    let c2 = nfa.put(b2, CharacterClass::valid("m")); // tom

    nfa.acceptance(f1);
    nfa.acceptance(c2);

    let thomas = nfa.process("thomas", |a, b| a.len().cmp(&b.len()));
    let tom = nfa.process("tom", |a, b| a.len().cmp(&b.len()));
    let thom = nfa.process("thom", |a, b| a.len().cmp(&b.len()));
    let nope = nfa.process("nope", |a, b| a.len().cmp(&b.len()));

    assert!(thomas.unwrap().state == f1, "thomas was parsed correctly");
    assert!(tom.unwrap().state == c2, "tom was parsed correctly");
    assert!(thom.is_err(), "thom didn't reach an acceptance state");
    assert!(nope.is_err(), "nope wasn't parsed");
}

#[test]
fn repetitions() {
    let mut nfa = NFA::<()>::new();
    let a = nfa.put(0, CharacterClass::valid("p")); // p
    let b = nfa.put(a, CharacterClass::valid("o")); // po
    let c = nfa.put(b, CharacterClass::valid("s")); // pos
    let d = nfa.put(c, CharacterClass::valid("t")); // post
    let e = nfa.put(d, CharacterClass::valid("s")); // posts
    let f = nfa.put(e, CharacterClass::valid("/")); // posts/
    let g = nfa.put(f, CharacterClass::invalid("/")); // posts/[^/]
    nfa.put_state(g, g);

    nfa.acceptance(g);

    let post = nfa.process("posts/1", |a, b| a.len().cmp(&b.len()));
    let new_post = nfa.process("posts/new", |a, b| a.len().cmp(&b.len()));
    let invalid = nfa.process("posts/", |a, b| a.len().cmp(&b.len()));

    assert!(post.unwrap().state == g, "posts/1 was parsed");
    assert!(new_post.unwrap().state == g, "posts/new was parsed");
    assert!(invalid.is_err(), "posts/ was invalid");
}

#[test]
fn repetitions_with_ambiguous() {
    let mut nfa = NFA::<()>::new();
    let a = nfa.put(0, CharacterClass::valid("p")); // p
    let b = nfa.put(a, CharacterClass::valid("o")); // po
    let c = nfa.put(b, CharacterClass::valid("s")); // pos
    let d = nfa.put(c, CharacterClass::valid("t")); // post
    let e = nfa.put(d, CharacterClass::valid("s")); // posts
    let f = nfa.put(e, CharacterClass::valid("/")); // posts/
    let g1 = nfa.put(f, CharacterClass::invalid("/")); // posts/[^/]
    let g2 = nfa.put(f, CharacterClass::valid("n")); // posts/n
    let h2 = nfa.put(g2, CharacterClass::valid("e")); // posts/ne
    let i2 = nfa.put(h2, CharacterClass::valid("w")); // posts/new

    nfa.put_state(g1, g1);

    nfa.acceptance(g1);
    nfa.acceptance(i2);

    let post = nfa.process("posts/1", |a, b| a.len().cmp(&b.len()));
    let ambiguous = nfa.process("posts/new", |a, b| a.len().cmp(&b.len()));
    let invalid = nfa.process("posts/", |a, b| a.len().cmp(&b.len()));

    assert!(post.unwrap().state == g1, "posts/1 was parsed");
    assert!(ambiguous.unwrap().state == i2, "posts/new was ambiguous");
    assert!(invalid.is_err(), "posts/ was invalid");
}

#[test]
fn captures() {
    let mut nfa = NFA::<()>::new();
    let a = nfa.put(0, CharacterClass::valid("n"));
    let b = nfa.put(a, CharacterClass::valid("e"));
    let c = nfa.put(b, CharacterClass::valid("w"));

    nfa.acceptance(c);
    nfa.start_capture(a);
    nfa.end_capture(c);

    let post = nfa.process("new", |a, b| a.len().cmp(&b.len()));

    assert_eq!(post.unwrap().captures, vec!["new".to_string()]);
}

#[test]
fn capture_mid_match() {
    let mut nfa = NFA::<()>::new();
    let a = nfa.put(0, valid('p'));
    let b = nfa.put(a, valid('/'));
    let c = nfa.put(b, invalid('/'));
    let d = nfa.put(c, valid('/'));
    let e = nfa.put(d, valid('c'));

    nfa.put_state(c, c);
    nfa.acceptance(e);
    nfa.start_capture(c);
    nfa.end_capture(c);

    let post = nfa.process("p/123/c", |a, b| a.len().cmp(&b.len()));

    assert_eq!(post.unwrap().captures, vec!["123".to_string()]);
}

#[test]
fn capture_multiple_captures() {
    let mut nfa = NFA::<()>::new();
    let a = nfa.put(0, valid('p'));
    let b = nfa.put(a, valid('/'));
    let c = nfa.put(b, invalid('/'));
    let d = nfa.put(c, valid('/'));
    let e = nfa.put(d, valid('c'));
    let f = nfa.put(e, valid('/'));
    let g = nfa.put(f, invalid('/'));

    nfa.put_state(c, c);
    nfa.put_state(g, g);
    nfa.acceptance(g);

    nfa.start_capture(c);
    nfa.end_capture(c);

    nfa.start_capture(g);
    nfa.end_capture(g);

    let post = nfa.process("p/123/c/456", |a, b| a.len().cmp(&b.len()));
    assert_eq!(
        post.unwrap().captures,
        vec!["123".to_string(), "456".to_string()]
    );
}

#[test]
fn put_reuses_an_equal_edge() {
    let mut nfa = NFA::<()>::new();
    let a = nfa.put(0, valid('x'));
    let b = nfa.put(0, CharacterClass::valid("x"));
    assert_eq!(a, b);
    assert_eq!(nfa.len(), 2);
    assert_eq!(nfa.get(0).next_states.len(), 1);
    let c = nfa.put(0, invalid('x'));
    assert_ne!(c, a);
    assert_eq!(nfa.len(), 3);
    let d = nfa.put(0, CharacterClass::invalid("xx"));
    assert_eq!(c, d);
}

#[test]
fn put_state_adds_without_sharing() {
    let mut nfa = NFA::<()>::new();
    let a = nfa.put(0, valid('x'));
    nfa.put_state(0, a);
    assert_eq!(nfa.get(0).next_states, vec![a, a]);
    assert_eq!(nfa.len(), 2);
}

#[test]
fn character_classes() {
    assert!(CharacterClass::any().matches(&'q'));
    assert!(CharacterClass::valid("ab").matches(&'b'));
    assert!(!CharacterClass::valid("ab").matches(&'c'));
    assert!(CharacterClass::invalid("ab").matches(&'c'));
    assert!(!CharacterClass::invalid("ab").matches(&'a'));
    assert!(valid('/').matches(&'/'));
    assert!(!invalid('/').matches(&'/'));
    assert!(CharacterClass::valid("ba") == CharacterClass::valid("aab"));
    assert!(CharacterClass::valid("a") != CharacterClass::invalid("a"));
    assert!(CharacterClass::valid("a") != CharacterClass::valid("ab"));
}

#[test]
fn last_of_equal_rank_wins_and_comparator_decides() {
    let mut nfa = NFA::<()>::new();
    let a1 = nfa.put(0, valid('a'));
    let a2 = nfa.put(0, CharacterClass::any());
    nfa.acceptance(a1);
    nfa.acceptance(a2);
    let equal = nfa.process("a", |_, _| std::cmp::Ordering::Equal).unwrap();
    assert_eq!(equal.state, a2);
    // rank by final state: the smaller identity ranks higher
    let by_state = nfa
        .process("a", |x, y| y[y.len() - 1].cmp(&x[x.len() - 1]))
        .unwrap();
    assert_eq!(by_state.state, a1);
}

#[test]
fn capture_at_end_and_in_loop() {
    let mut nfa = NFA::<()>::new();
    let a = nfa.put(0, valid('x'));
    let b = nfa.put(a, invalid('/'));
    nfa.put_state(b, b);
    nfa.start_capture(b);
    nfa.end_capture(b);
    nfa.acceptance(b);
    let m = nfa.process("xabc", |a, b| a.len().cmp(&b.len())).unwrap();
    assert_eq!(m.state, b);
    assert_eq!(m.captures, vec!["abc".to_string()]);
}

#[test]
fn errors_name_their_cause() {
    let mut nfa = NFA::<()>::new();
    let a = nfa.put(0, valid('a'));
    let b = nfa.put(a, valid('b'));
    nfa.acceptance(b);
    assert_eq!(
        nfa.process("ax", |a, b| a.len().cmp(&b.len())).err().unwrap(),
        "Couldn't process ax".to_string()
    );
    assert_eq!(
        nfa.process("a", |a, b| a.len().cmp(&b.len())).err().unwrap(),
        "The string was exhausted before reaching an acceptance state".to_string()
    );
    assert!(nfa.process("", |a, b| a.len().cmp(&b.len())).is_err());
}
