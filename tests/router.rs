use route_recognizer::{Metadata, Params, Router};
use std::cmp::Ordering;

fn params(key: &str, val: &str) -> Params {
    let mut map = Params::new();
    map.insert(key.to_string(), val.to_string());
    map
}

fn two_params(k1: &str, v1: &str, k2: &str, v2: &str) -> Params {
    let mut map = Params::new();
    map.insert(k1.to_string(), v1.to_string());
    map.insert(k2.to_string(), v2.to_string());
    map
}

#[test]
fn basic_router() {
    let mut router = Router::new();

    router.add("/thomas", "Thomas".to_string());
    router.add("/tom", "Tom".to_string());
    router.add("/wycats", "Yehuda".to_string());

    let m = router.recognize("/thomas").unwrap();

    assert_eq!(*m.handler, "Thomas".to_string());
    assert_eq!(m.params, Params::new());
}

#[test]
fn root_router() {
    let mut router = Router::new();
    router.add("/", 10);
    assert_eq!(*router.recognize("/").unwrap().handler, 10)
}

#[test]
fn ambiguous_router() {
    let mut router = Router::new();

    router.add("/posts/new", "new".to_string());
    router.add("/posts/:id", "id".to_string());

    let id = router.recognize("/posts/1").unwrap();

    assert_eq!(*id.handler, "id".to_string());
    assert_eq!(id.params, params("id", "1"));

    let new = router.recognize("/posts/new").unwrap();
    assert_eq!(*new.handler, "new".to_string());
    assert_eq!(new.params, Params::new());
}

#[test]
fn ambiguous_router_b() {
    let mut router = Router::new();

    router.add("/posts/:id", "id".to_string());
    router.add("/posts/new", "new".to_string());

    let id = router.recognize("/posts/1").unwrap();

    assert_eq!(*id.handler, "id".to_string());
    assert_eq!(id.params, params("id", "1"));

    let new = router.recognize("/posts/new").unwrap();
    assert_eq!(*new.handler, "new".to_string());
    assert_eq!(new.params, Params::new());
}

#[test]
fn multiple_params() {
    let mut router = Router::new();

    router.add("/posts/:post_id/comments/:id", "comment".to_string());
    router.add("/posts/:post_id/comments", "comments".to_string());

    let com = router.recognize("/posts/12/comments/100").unwrap();
    let coms = router.recognize("/posts/12/comments").unwrap();

    assert_eq!(*com.handler, "comment".to_string());
    assert_eq!(com.params, two_params("post_id", "12", "id", "100"));

    assert_eq!(*coms.handler, "comments".to_string());
    assert_eq!(coms.params, params("post_id", "12"));
    assert_eq!(*coms.params.index("post_id"), "12".to_string());
}

#[test]
fn shared_prefix_shares_states() {
    let mut router = Router::new();
    router.add("/posts/new", 1);
    let states_after_first = router.nfa().len();
    router.add("/posts/:id", 2);
    // only the parameter state is new; "/posts/" was reused
    assert_eq!(router.nfa().len(), states_after_first + 1);
    assert_eq!(router.nfa().get(0).next_states.len(), 1);
    let p = router.nfa().get(0).next_states[0];
    assert_eq!(router.nfa().get(p).next_states.len(), 1);
}

#[test]
fn literal_siblings_branch_after_common_prefix() {
    let mut router = Router::new();
    router.add("/thomas", 1);
    router.add("/tom", 2);
    assert_eq!(router.nfa().get(0).next_states.len(), 1);
    let t = router.nfa().get(0).next_states[0];
    assert_eq!(router.nfa().get(t).next_states.len(), 2);
}

#[test]
fn recognition_is_repeatable() {
    let mut router = Router::new();
    router.add("/posts/:post_id/comments/:id", "comment".to_string());
    router.add("/posts/new", "new".to_string());
    let a = router.recognize("/posts/7/comments/8").unwrap();
    let b = router.recognize("/posts/7/comments/8").unwrap();
    assert_eq!(*a.handler, *b.handler);
    assert_eq!(a.params, b.params);
    let e1 = router.recognize("/posts").err().unwrap();
    let e2 = router.recognize("/posts").err().unwrap();
    assert_eq!(e1, e2);
}

#[test]
fn root_pattern_binds_nothing() {
    let mut router = Router::new();
    router.add("/", "root".to_string());
    let m = router.recognize("/").unwrap();
    assert_eq!(*m.handler, "root".to_string());
    assert_eq!(m.params, Params::new());
    assert_eq!(m.params.len(), 0);
    let empty = router.recognize("").unwrap();
    assert_eq!(*empty.handler, "root".to_string());
}

#[test]
fn parameters_keep_declaration_order() {
    let mut router = Router::new();
    router.add("/posts/:post_id/comments/:id", 0);
    let m = router.recognize("/posts/12/comments/100").unwrap();
    assert_eq!(m.params.len(), 2);
    assert_eq!(*m.params.index("post_id"), "12".to_string());
    assert_eq!(*m.params.index("id"), "100".to_string());
    assert_ne!(m.params, two_params("post_id", "100", "id", "12"));
}

#[test]
fn self_loop_keeps_one_capture() {
    let mut router = Router::new();
    router.add("/posts/:id", 0);
    let m = router.recognize("/posts/12345").unwrap();
    assert_eq!(m.params.len(), 1);
    assert_eq!(m.params, params("id", "12345"));
}

#[test]
fn unmatched_path_fails_without_transition() {
    let mut router = Router::new();
    router.add("/posts/:id", 0);
    let e = router.recognize("/nope").err().unwrap();
    assert_eq!(e, "Couldn't process nope".to_string());
}

#[test]
fn consumed_path_without_acceptance_fails() {
    let mut router = Router::new();
    router.add("/posts/:id", 0);
    let e = router.recognize("/posts/").err().unwrap();
    assert_eq!(
        e,
        "The string was exhausted before reaching an acceptance state".to_string()
    );
    assert!(router.recognize("/posts").is_err());
}

#[test]
fn static_wins_in_either_order() {
    for static_first in [true, false] {
        let mut router = Router::new();
        if static_first {
            router.add("/posts/new", "new");
            router.add("/posts/:id", "id");
        } else {
            router.add("/posts/:id", "id");
            router.add("/posts/new", "new");
        }
        assert_eq!(*router.recognize("/posts/new").unwrap().handler, "new");
        assert_eq!(*router.recognize("/posts/newer").unwrap().handler, "id");
    }
}

#[test]
fn path_without_leading_separator() {
    let mut router = Router::new();
    router.add("posts/:id", 3);
    let m = router.recognize("posts/9").unwrap();
    assert_eq!(*m.handler, 3);
    assert_eq!(m.params, params("id", "9"));
    assert_eq!(*router.recognize("/posts/9").unwrap().handler, 3);
}

#[test]
fn repeated_parameter_name_keeps_last_value() {
    let mut router = Router::new();
    router.add("/:a/:a", 0);
    let m = router.recognize("/x/y").unwrap();
    assert_eq!(m.params.len(), 1);
    assert_eq!(m.params, params("a", "y"));
}

#[test]
fn reregistering_replaces_handler() {
    let mut router = Router::new();
    router.add("/a", 1);
    router.add("/a", 2);
    assert_eq!(*router.recognize("/a").unwrap().handler, 2);
}

#[test]
fn params_insert_replaces_and_compares_as_map() {
    let mut p = Params::new();
    p.insert("a".to_string(), "1".to_string());
    p.insert("b".to_string(), "2".to_string());
    p.insert("a".to_string(), "3".to_string());
    assert_eq!(p.len(), 2);
    assert_eq!(*p.index("a"), "3".to_string());
    assert_eq!(p, two_params("b", "2", "a", "3"));
    assert_ne!(p, two_params("a", "1", "b", "2"));
}

#[test]
fn metadata_order() {
    let mut stat = Metadata::new();
    stat.statics = 2;
    let mut dynamic = Metadata::new();
    dynamic.statics = 1;
    dynamic.dynamics = 1;
    assert_eq!(stat.cmp(&dynamic), Ordering::Greater);
    assert_eq!(dynamic.cmp(&stat), Ordering::Less);
    let mut star = Metadata::new();
    star.stars = 1;
    assert_eq!(star.cmp(&dynamic), Ordering::Less);
    let mut fewer = Metadata::new();
    fewer.statics = 1;
    assert_eq!(fewer.cmp(&stat), Ordering::Greater);
    assert_eq!(stat.cmp(&stat), Ordering::Equal);
    let mut named = Metadata::new();
    named.statics = 2;
    named.param_names.push("x".to_string());
    assert!(named == stat);
    assert!(named != dynamic);
}

#[test]
fn several_routes_pick_the_full_match() {
    let mut router = Router::new();
    router.add("/posts/:post_id/comments/:id", "comment".to_string());
    router.add("/posts/:post_id/comments", "comments".to_string());
    router.add("/posts/:post_id", "post".to_string());
    router.add("/posts", "posts".to_string());
    router.add("/comments", "comments2".to_string());
    router.add("/comments/:id", "comment2".to_string());

    let m = router.recognize("/posts/100/comments/200").unwrap();
    assert_eq!(*m.handler, "comment".to_string());
    assert_eq!(m.params, two_params("post_id", "100", "id", "200"));
    assert_eq!(*router.recognize("/posts").unwrap().handler, "posts".to_string());
    assert_eq!(*router.recognize("/comments/5").unwrap().handler, "comment2".to_string());
    assert_eq!(*router.recognize("/posts/5").unwrap().handler, "post".to_string());
}

#[test]
fn params_get_reports_missing_names() {
    let p = params("id", "7");
    assert_eq!(p.get("id"), Some(&"7".to_string()));
    assert_eq!(p.get("post_id"), None);
}

#[test]
fn reregistering_leaves_the_automaton_alone() {
    let mut router = Router::new();
    router.add("/posts/:id", 1);
    let states = router.nfa().len();
    let root_edges = router.nfa().get(0).next_states.clone();
    router.add("/posts/:id", 2);
    assert_eq!(router.nfa().len(), states);
    assert_eq!(router.nfa().get(0).next_states, root_edges);
    assert_eq!(*router.recognize("/posts/3").unwrap().handler, 2);
}

#[test]
fn cloned_router_recognizes_alike() {
    let mut router = Router::new();
    router.add("/posts/:id", "id".to_string());
    let copy = router.clone();
    router.add("/posts/new", "new".to_string());
    assert_eq!(*copy.recognize("/posts/new").unwrap().handler, "id".to_string());
    assert_eq!(*router.recognize("/posts/new").unwrap().handler, "new".to_string());
}
