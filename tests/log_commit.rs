use std::collections::{HashMap, HashSet};

use stgit::branch_delete::{delete_plan, DeletePlan};
use stgit::editor::{choose_editor, is_noop_editor};
use stgit::error::Error;
use stgit::fanin::{FanIn, MAX_PARENTS};
use stgit::oid::ObjectId;
use stgit::patchname::PatchName;
use stgit::pinning::pinning_parents;
use stgit::stack::{check_deinitialize, check_initialize, load_action, protect_key, stack_ref_name, InitializationPolicy, LoadAction};
use stgit::state::{PatchDescriptor, StackState};
use stgit::text::to_hex;
use stgit::trailers::{default_identity, trailer_arg, trailer_list};
use stgit::treebuild::{patch_meta, reusable_blob, PrevEntry};

fn id(n: u8) -> ObjectId {
    ObjectId { bytes: [n; 20] }
}

fn id2(a: u8, b: u8) -> ObjectId {
    let mut bytes = [a; 20];
    bytes[19] = b;
    ObjectId { bytes }
}

fn name(s: &str) -> PatchName {
    PatchName::parse(s).unwrap()
}

fn desc(commit: ObjectId, parent: ObjectId) -> PatchDescriptor {
    PatchDescriptor { commit, parent }
}

fn raw(v: &[ObjectId]) -> Vec<[u8; 20]> {
    v.iter().map(|o| o.bytes).collect()
}

/// Runs the reduction as a writer would, numbering grouping commits from 200.
fn reduce(parents: Vec<ObjectId>, simplified: ObjectId) -> (Vec<ObjectId>, HashMap<[u8; 20], Vec<ObjectId>>) {
    let mut f = FanIn::new(parents);
    let mut groups = HashMap::new();
    let mut next: u8 = 200;
    while let Some(g) = f.next_group() {
        assert_eq!(g.len(), MAX_PARENTS);
        let gid = id(next);
        next += 1;
        groups.insert(gid.bytes, g);
        f.record_group(gid);
    }
    (f.finish(simplified), groups)
}

fn reachable(roots: &[ObjectId], groups: &HashMap<[u8; 20], Vec<ObjectId>>) -> HashSet<[u8; 20]> {
    let mut seen = HashSet::new();
    let mut todo: Vec<ObjectId> = roots.to_vec();
    while let Some(x) = todo.pop() {
        if seen.insert(x.bytes) {
            if let Some(ps) = groups.get(&x.bytes) {
                todo.extend(ps.iter().copied());
            }
        }
    }
    seen
}

#[test]
fn seed_pins_head_only() {
    let s = StackState::new(id(0));
    assert_eq!(raw(&pinning_parents(&s, None)), vec![[0; 20]]);
}

#[test]
fn push_pins_base_patch_and_previous_log() {
    let seed = StackState::new(id(0));
    let mut s = StackState::new(id(0)).advance_head(id(0), id(50));
    s.push(name("p1"), desc(id(1), id(0))).unwrap();
    let parents = raw(&pinning_parents(&s, Some(&seed)));
    assert_eq!(parents, vec![[0; 20], [1; 20], [50; 20]]);
}

#[test]
fn pop_keeps_patch_commit_reachable() {
    let mut prev = StackState::new(id(0)).advance_head(id(0), id(50));
    prev.push(name("p1"), desc(id(1), id(0))).unwrap();
    let mut s = StackState::new(id(0)).advance_head(id(0), id(51));
    s.push(name("p1"), desc(id(1), id(0))).unwrap();
    s.pop().unwrap();
    // p1's commit was pinned through the previous log commit.
    let parents = raw(&pinning_parents(&s, Some(&prev)));
    assert_eq!(parents, vec![[0; 20], [51; 20]]);
    // Without a previous state to subtract, it is pinned directly.
    let parents = raw(&pinning_parents(&s, None));
    assert_eq!(parents, vec![[0; 20], [1; 20], [51; 20]]);
}

#[test]
fn previous_patches_are_removed_in_order() {
    let mut prev = StackState::new(id(0));
    prev.push(name("a"), desc(id(1), id(0))).unwrap();
    prev.pop().unwrap();
    let mut s = StackState::new(id(0)).advance_head(id(0), id(60));
    s.push(name("a"), desc(id(1), id(0))).unwrap();
    s.push(name("b"), desc(id(2), id(1))).unwrap();
    s.pop().unwrap();
    s.pop().unwrap();
    // Before removal: [0, 1, 2, 60]; removing 1 keeps the rest in order.
    assert_eq!(raw(&pinning_parents(&s, Some(&prev))), vec![[0; 20], [2; 20], [60; 20]]);
}

#[test]
fn forty_unapplied_patches_fan_in() {
    let mut s = StackState::new(id(0));
    for i in 0..40u8 {
        let n = format!("p{}", i);
        let parent = if i == 0 { id(0) } else { id2(1, i - 1) };
        s.push(name(&n), desc(id2(1, i), parent)).unwrap();
    }
    for _ in 0..40 {
        s.pop().unwrap();
    }
    let parents = pinning_parents(&s, None);
    assert_eq!(parents.len(), 41);
    let (log_parents, groups) = reduce(parents, id(99));
    assert!(log_parents.len() <= MAX_PARENTS);
    assert_eq!(log_parents[0].bytes, [99; 20]);
    for g in groups.values() {
        assert!(g.len() <= MAX_PARENTS);
    }
    let seen = reachable(&log_parents, &groups);
    for i in 0..40u8 {
        assert!(seen.contains(&id2(1, i).bytes));
    }
    assert!(seen.contains(&[0; 20]));
}

#[test]
fn fan_in_leaves_small_sets_alone() {
    let parents: Vec<ObjectId> = (0..15u8).map(id).collect();
    let (log_parents, groups) = reduce(parents, id(99));
    assert!(groups.is_empty());
    assert_eq!(log_parents.len(), 16);
    let parents: Vec<ObjectId> = (0..16u8).map(id).collect();
    let (log_parents, groups) = reduce(parents, id(99));
    assert_eq!(groups.len(), 1);
    assert_eq!(log_parents.len(), 2);
}

#[test]
fn patch_meta_text() {
    let meta = patch_meta(&id(0xab), &id(0xcd), "A U Thor <a@example.com>", 0, 90, b"Subject\n\nBody\n").unwrap();
    let expected = format!(
        "Bottom: {}\nTop:    {}\nAuthor: A U Thor <a@example.com>\nDate:   1970-01-01 01:30:00 +0130\n\nSubject\n\nBody\n",
        "ab".repeat(20),
        "cd".repeat(20)
    );
    assert_eq!(String::from_utf8(meta).unwrap(), expected);
    assert!(patch_meta(&id(1), &id(2), "x", 0, 1440, b"").is_none());
}

#[test]
fn unchanged_patch_reuses_blob() {
    let mut prev = StackState::new(id(0));
    prev.push(name("a"), desc(id(1), id(0))).unwrap();
    let mut s = StackState::new(id(0)).advance_head(id(0), id(70));
    s.push(name("a"), desc(id(1), id(0))).unwrap();
    let entry = PrevEntry { id: id(0xee), is_blob: true };
    assert_eq!(reusable_blob(&s, &name("a"), Some(&prev), Some(entry)).unwrap().bytes, [0xee; 20]);
    let tree = PrevEntry { id: id(0xee), is_blob: false };
    assert!(reusable_blob(&s, &name("a"), Some(&prev), Some(tree)).is_none());
    assert!(reusable_blob(&s, &name("a"), None, Some(entry)).is_none());
    let mut changed = StackState::new(id(0));
    changed.push(name("a"), desc(id(2), id(0))).unwrap();
    assert!(reusable_blob(&changed, &name("a"), Some(&prev), Some(entry)).is_none());
}

#[test]
fn hex_of_object_id() {
    assert_eq!(to_hex(&id2(0x0f, 0xa0)), format!("{}a0", "0f".repeat(19)));
}

#[test]
fn protected_branch_cannot_be_deinitialized() {
    assert_eq!(check_deinitialize(true), Err(Error::Protected));
    assert_eq!(check_deinitialize(false), Ok(()));
    assert_eq!(protect_key("main"), "branch.main.stgit.protect");
    assert_eq!(stack_ref_name("main"), "refs/stacks/main");
}

#[test]
fn initialization_policies() {
    assert_eq!(load_action(InitializationPolicy::RequireInitialized, false), Err(Error::NotInitialized));
    assert_eq!(load_action(InitializationPolicy::AllowUninitialized, false), Ok(LoadAction::Empty));
    assert_eq!(load_action(InitializationPolicy::AutoInitialize, false), Ok(LoadAction::Seed));
    assert_eq!(load_action(InitializationPolicy::RequireInitialized, true), Ok(LoadAction::Load));
    assert_eq!(check_initialize(true), Err(Error::AlreadyInitialized));
    assert_eq!(check_initialize(false), Ok(()));
}

#[test]
fn branch_delete_rules() {
    assert_eq!(delete_plan(true, true, false, true, 0), Err(Error::CurrentBranch));
    assert_eq!(delete_plan(false, false, true, false, 3), Ok(DeletePlan::DeleteOnly));
    assert_eq!(delete_plan(false, true, true, true, 0), Err(Error::Protected));
    assert_eq!(delete_plan(false, true, false, false, 2), Err(Error::NonEmpty));
    assert_eq!(delete_plan(false, true, false, true, 2), Ok(DeletePlan::DeinitializeThenDelete));
    assert_eq!(delete_plan(false, true, false, false, 0), Ok(DeletePlan::DeinitializeThenDelete));
}

#[test]
fn editor_resolution_order() {
    let s = |x: &str| Some(x.to_string());
    assert_eq!(choose_editor(s("g"), s("s"), s("c"), s("v"), s("e")), "g");
    assert_eq!(choose_editor(None, s("s"), s("c"), s("v"), s("e")), "s");
    assert_eq!(choose_editor(None, None, s("c"), s("v"), s("e")), "c");
    assert_eq!(choose_editor(None, None, None, s("v"), s("e")), "v");
    assert_eq!(choose_editor(None, None, None, None, s("e")), "e");
    assert_eq!(choose_editor(None, None, None, None, None), "vi");
    assert!(is_noop_editor(":"));
    assert!(!is_noop_editor("vi"));
}

#[test]
fn trailers_in_order() {
    let me = "Me <me@example.com>".to_string();
    let t = trailer_list(Some("A <a@x>".into()), None, Some("R <r@x>".into()), true, false, true, me.clone(), Some("Tested-by".into()));
    let expected: Vec<(String, String)> = vec![
        ("Acked-by".into(), "A <a@x>".into()),
        ("Reviewed-by".into(), "R <r@x>".into()),
        ("Signed-off-by".into(), me.clone()),
        ("Reviewed-by".into(), me.clone()),
        ("Tested-by".into(), me.clone()),
    ];
    assert_eq!(t, expected);
    assert!(trailer_list(None, None, None, false, false, false, me, None).is_empty());
}

#[test]
fn patch_meta_far_dates() {
    let t: i64 = 1 << 40;
    assert!(patch_meta(&id(1), &id(2), "x", t, 1439, b"m").is_some());
    assert!(patch_meta(&id(1), &id(2), "x", -t, -1439, b"m").is_some());
    assert!(patch_meta(&id(1), &id(2), "x", 0, -1440, b"m").is_none());
}

#[test]
fn stack_config_prefix_text() {
    assert_eq!(stgit::stack::stack_config_prefix("main"), "branch.main.stgit.");
}

#[test]
fn trailer_texts() {
    assert_eq!(default_identity("A U Thor", "a@example.com"), "A U Thor <a@example.com>");
    assert_eq!(trailer_arg("Acked-by", "A <a@x>"), "--trailer=Acked-by=A <a@x>");
}
