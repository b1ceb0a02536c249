use stgit::error::Error;
use stgit::oid::ObjectId;
use stgit::patchname::{text_less, PatchName};
use stgit::state::{PatchDescriptor, PatchEntry, StackState};
use stgit::stackjson::{stack_json, stack_json_bytes};

fn id(n: u8) -> ObjectId {
    ObjectId { bytes: [n; 20] }
}

fn name(s: &str) -> PatchName {
    PatchName::parse(s).unwrap()
}

fn names(v: &[PatchName]) -> Vec<String> {
    v.iter().map(|n| n.as_str().to_string()).collect()
}

fn desc(commit: u8, parent: u8) -> PatchDescriptor {
    PatchDescriptor { commit: id(commit), parent: id(parent) }
}

#[test]
fn patch_name_accepts_plain_names() {
    assert_eq!(PatchName::parse("fix-parser").unwrap().as_str(), "fix-parser");
    assert_eq!(PatchName::parse("a.b_c").unwrap().as_str(), "a.b_c");
}

#[test]
fn patch_name_rejects_bad_names() {
    for bad in ["", "-x", "a b", "a/b", "a\\b", "a..b", "tab\there", "del\u{7f}", "nb\u{a0}sp", "nel\u{85}", "ls\u{2028}", "c1\u{9b}", "ideo\u{3000}"] {
        assert_eq!(PatchName::parse(bad).unwrap_err(), Error::InvalidPatchName, "{}", bad);
    }
}

#[test]
fn seed_state_is_empty_on_head() {
    let s = StackState::new(id(0));
    assert_eq!(s.head().bytes, [0; 20]);
    assert!(s.prev().is_none());
    assert!(s.all_patches().is_empty());
    assert_eq!(s.top().bytes, [0; 20]);
}

#[test]
fn seed_state_json() {
    let s = StackState::new(id(0xc0));
    let head = "c0".repeat(20);
    let expected = format!(
        "{{\n  \"version\": 5,\n  \"prev\": null,\n  \"head\": \"{}\",\n  \"applied\": [],\n  \"unapplied\": [],\n  \"hidden\": [],\n  \"patches\": {{}}\n}}",
        head
    );
    assert_eq!(stack_json(&s), expected);
}

#[test]
fn push_records_patch_and_moves_top() {
    let mut s = StackState::new(id(0)).advance_head(id(0), id(9));
    assert_eq!(s.push(name("p1"), desc(1, 0)), Ok(()));
    assert_eq!(names(s.applied()), vec!["p1"]);
    assert_eq!(s.top().bytes, [1; 20]);
    assert_eq!(s.patch(&name("p1")).unwrap().commit.bytes, [1; 20]);
    let json = stack_json(&s);
    assert!(json.contains("\"applied\": [\n    \"p1\"\n  ]"));
    assert!(json.contains(&format!("\"p1\": {{\n      \"oid\": \"{}\"\n    }}", "01".repeat(20))));
    assert!(json.contains(&format!("\"prev\": \"{}\"", "09".repeat(20))));
}

#[test]
fn push_refuses_wrong_parent_and_taken_name() {
    let mut s = StackState::new(id(0));
    assert_eq!(s.push(name("p1"), desc(1, 7)), Err(Error::ParentMismatch));
    assert!(s.all_patches().is_empty());
    assert_eq!(s.push(name("p1"), desc(1, 0)), Ok(()));
    assert_eq!(s.push(name("p1"), desc(2, 1)), Err(Error::NameConflict));
    assert_eq!(names(&s.all_patches()), vec!["p1"]);
}

#[test]
fn pop_moves_top_to_front_of_unapplied() {
    let mut s = StackState::new(id(0));
    s.push(name("p1"), desc(1, 0)).unwrap();
    s.push(name("p2"), desc(2, 1)).unwrap();
    s.pop().unwrap();
    assert_eq!(names(s.applied()), vec!["p1"]);
    assert_eq!(names(s.unapplied()), vec!["p2"]);
    s.pop().unwrap();
    assert_eq!(names(s.applied()), Vec::<String>::new());
    assert_eq!(names(s.unapplied()), vec!["p1", "p2"]);
    assert_eq!(s.top().bytes, [0; 20]);
    assert_eq!(s.pop(), Err(Error::NothingApplied));
}

#[test]
fn rename_conflict_leaves_state_unchanged() {
    let mut s = StackState::new(id(0));
    s.push(name("b"), desc(2, 0)).unwrap();
    s.pop().unwrap();
    s.push(name("a"), desc(1, 0)).unwrap();
    assert_eq!(names(s.applied()), vec!["a"]);
    assert_eq!(names(s.unapplied()), vec!["b"]);
    let before = stack_json(&s);
    assert_eq!(s.rename(&name("a"), name("b")), Err(Error::NameConflict));
    assert_eq!(stack_json(&s), before);
}

#[test]
fn rename_replaces_name_everywhere() {
    let mut s = StackState::new(id(0));
    s.push(name("a"), desc(1, 0)).unwrap();
    assert_eq!(s.rename(&name("a"), name("c")), Ok(()));
    assert_eq!(names(s.applied()), vec!["c"]);
    assert!(s.patch(&name("a")).is_none());
    assert_eq!(s.patch(&name("c")).unwrap().commit.bytes, [1; 20]);
    assert_eq!(s.rename(&name("zz"), name("d")), Err(Error::UnknownPatch));
}

#[test]
fn delete_removes_top_or_unapplied_patch() {
    let mut s = StackState::new(id(0));
    s.push(name("a"), desc(1, 0)).unwrap();
    s.push(name("b"), desc(2, 1)).unwrap();
    s.push(name("c"), desc(3, 2)).unwrap();
    assert_eq!(s.delete(&name("b")), Err(Error::PatchApplied));
    assert_eq!(s.delete(&name("c")), Ok(()));
    assert_eq!(names(s.applied()), vec!["a", "b"]);
    assert_eq!(s.top().bytes, [2; 20]);
    s.pop().unwrap();
    assert_eq!(s.delete(&name("b")), Ok(()));
    assert_eq!(names(&s.all_patches()), vec!["a"]);
    assert!(!s.has_patch(&name("b")));
    assert_eq!(s.delete(&name("b")), Err(Error::UnknownPatch));
}

#[test]
fn parts_round_trip() {
    let mut s = StackState::new(id(0)).advance_head(id(0), id(5));
    s.push(name("a"), desc(1, 0)).unwrap();
    s.push(name("b"), desc(2, 1)).unwrap();
    s.pop().unwrap();
    let before = stack_json_bytes(&s);
    let (prev, head, applied, unapplied, hidden, patches) = s.into_parts();
    let back = StackState::from_parts(5, prev, head, applied, unapplied, hidden, patches).unwrap();
    assert_eq!(stack_json_bytes(&back), before);
}

#[test]
fn from_parts_rejects_bad_metadata() {
    let entry = |n: &str, c: u8, p: u8| PatchEntry { name: name(n), desc: desc(c, p) };
    assert_eq!(
        StackState::from_parts(4, None, id(0), vec![], vec![], vec![], vec![]).unwrap_err(),
        Error::StackMetadataMalformed
    );
    assert_eq!(
        StackState::from_parts(5, None, id(0), vec![name("a")], vec![], vec![], vec![entry("a", 1, 3)])
            .unwrap_err(),
        Error::StackMetadataMalformed
    );
    assert_eq!(
        StackState::from_parts(5, None, id(0), vec![name("a")], vec![name("a")], vec![], vec![entry("a", 1, 0)])
            .unwrap_err(),
        Error::StackMetadataMalformed
    );
    assert_eq!(
        StackState::from_parts(5, None, id(0), vec![], vec![], vec![], vec![entry("a", 1, 0)]).unwrap_err(),
        Error::StackMetadataMalformed
    );
    assert!(StackState::from_parts(5, None, id(0), vec![name("a")], vec![], vec![], vec![entry("a", 1, 0)]).is_ok());
}

#[test]
fn equal_states_serialize_identically() {
    let build = || {
        let mut s = StackState::new(id(3));
        s.push(name("x"), desc(4, 3)).unwrap();
        s.push(name("y"), desc(5, 4)).unwrap();
        s.pop().unwrap();
        s
    };
    assert_eq!(stack_json_bytes(&build()), stack_json_bytes(&build()));
}

#[test]
fn hide_and_unhide_move_between_sequences() {
    let mut s = StackState::new(id(0));
    s.push(name("a"), desc(1, 0)).unwrap();
    s.push(name("b"), desc(2, 1)).unwrap();
    assert_eq!(s.hide_patch(&name("b")), Err(Error::UnknownPatch));
    s.pop().unwrap();
    s.pop().unwrap();
    assert_eq!(s.hide_patch(&name("b")), Ok(()));
    assert_eq!(names(s.unapplied()), vec!["a"]);
    assert_eq!(names(s.hidden()), vec!["b"]);
    assert_eq!(names(&s.all_patches()), vec!["a", "b"]);
    assert_eq!(s.hide_patch(&name("a")), Ok(()));
    assert_eq!(names(s.hidden()), vec!["b", "a"]);
    assert_eq!(s.unhide_patch(&name("b")), Ok(()));
    assert_eq!(names(s.unapplied()), vec!["b"]);
    assert_eq!(names(s.hidden()), vec!["a"]);
    assert_eq!(s.unhide_patch(&name("b")), Err(Error::UnknownPatch));
}

#[test]
fn refresh_replaces_top_commit() {
    let mut s = StackState::new(id(0));
    assert_eq!(s.refresh_top(desc(9, 0)), Err(Error::NothingApplied));
    s.push(name("a"), desc(1, 0)).unwrap();
    s.push(name("b"), desc(2, 1)).unwrap();
    assert_eq!(s.refresh_top(desc(3, 0)), Err(Error::ParentMismatch));
    assert_eq!(s.top().bytes, [2; 20]);
    assert_eq!(s.refresh_top(desc(3, 1)), Ok(()));
    assert_eq!(s.top().bytes, [3; 20]);
    assert_eq!(s.patch(&name("b")).unwrap().commit.bytes, [3; 20]);
}

#[test]
fn reorder_unapplied_requires_same_names() {
    let mut s = StackState::new(id(0));
    s.push(name("a"), desc(1, 0)).unwrap();
    s.push(name("b"), desc(2, 1)).unwrap();
    s.push(name("c"), desc(3, 2)).unwrap();
    s.pop().unwrap();
    s.pop().unwrap();
    assert_eq!(names(s.unapplied()), vec!["b", "c"]);
    assert_eq!(s.reorder_unapplied(vec![name("c")]), Err(Error::InvalidOrder));
    assert_eq!(s.reorder_unapplied(vec![name("c"), name("c")]), Err(Error::InvalidOrder));
    assert_eq!(s.reorder_unapplied(vec![name("c"), name("a")]), Err(Error::InvalidOrder));
    assert_eq!(names(s.unapplied()), vec!["b", "c"]);
    assert_eq!(s.reorder_unapplied(vec![name("c"), name("b")]), Ok(()));
    assert_eq!(names(s.unapplied()), vec!["c", "b"]);
}

#[test]
fn patch_table_is_emitted_in_name_order() {
    let mut s = StackState::new(id(0));
    s.push(name("zeta"), desc(1, 0)).unwrap();
    s.push(name("alpha"), desc(2, 1)).unwrap();
    s.push(name("Mid"), desc(3, 2)).unwrap();
    let json = stack_json(&s);
    let a = json.find("\"alpha\": {").unwrap();
    let m = json.find("\"Mid\": {").unwrap();
    let z = json.find("\"zeta\": {").unwrap();
    assert!(m < a && a < z);
    assert!(json.contains("\"applied\": [\n    \"zeta\",\n    \"alpha\",\n    \"Mid\"\n  ]"));
}

#[test]
fn text_order_is_lexicographic() {
    assert!(text_less("a", "b"));
    assert!(text_less("a", "ab"));
    assert!(!text_less("ab", "a"));
    assert!(!text_less("a", "a"));
    assert!(text_less("B", "a"));
    assert!(text_less("", "a"));
}

#[test]
fn json_quote_agrees_with_serde_json() {
    use_quote_cases(&["p1", "a\"b", "back\\slash", "tab\tnl\ncr\r", "bs\u{8}ff\u{c}", "ctl\u{1}\u{1f}", "ünï©ødé", ""]);
}

fn use_quote_cases(cases: &[&str]) {
    for c in cases {
        assert_eq!(stgit::stackjson::json_quote(c), serde_json::to_string(c).unwrap(), "{:?}", c);
    }
}

#[test]
fn stack_json_parses_back() {
    let mut s = StackState::new(id(0)).advance_head(id(0), id(9));
    s.push(name("p\"1"), desc(1, 0)).unwrap();
    s.push(name("p2"), desc(2, 1)).unwrap();
    s.pop().unwrap();
    let v: serde_json::Value = serde_json::from_str(&stack_json(&s)).unwrap();
    assert_eq!(v["version"].as_u64(), Some(5));
    assert_eq!(v["prev"].as_str(), Some("09".repeat(20).as_str()));
    assert_eq!(v["head"].as_str(), Some("00".repeat(20).as_str()));
    assert_eq!(v["applied"][0].as_str(), Some("p\"1"));
    assert_eq!(v["unapplied"][0].as_str(), Some("p2"));
    assert_eq!(v["hidden"].as_array().map(|a| a.len()), Some(0));
    assert_eq!(v["patches"]["p2"]["oid"].as_str(), Some("02".repeat(20).as_str()));
    assert_eq!(v["patches"]["p\"1"]["oid"].as_str(), Some("01".repeat(20).as_str()));
}
