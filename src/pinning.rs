use vstd::prelude::*;

use crate::fanin::{reaches, FanIn};
use crate::oid::ObjectId;
use crate::patchname::{names_of, PatchName};
use crate::state::{StackState, StackView};

verus! {

#[verifier::external_type_specification]
#[verifier::external_body]
#[verifier::reject_recursive_types(T)]
#[verifier::reject_recursive_types(S)]
pub struct ExIndexSet<T, S>(indexmap::IndexSet<T, S>);

/// The ids held by an insertion-ordered set, in its order.
pub uninterp spec fn pin_items(s: indexmap::IndexSet<[u8; 20]>) -> Seq<[u8; 20]>;

/// Inserting into an insertion-ordered set: a new item goes last, a present
/// one keeps its place.
pub open spec fn insert_last(s: Seq<[u8; 20]>, x: [u8; 20]) -> Seq<[u8; 20]> {
    if s.contains(x) {
        s
    } else {
        s.push(x)
    }
}

/// Removing from an insertion-ordered set: the items after the removed one
/// keep their order.
pub open spec fn shift_removed(s: Seq<[u8; 20]>, x: [u8; 20]) -> Seq<[u8; 20]> {
    if s.contains(x) {
        s.remove(s.index_of(x))
    } else {
        s
    }
}

/// Relies on `IndexSet::new`: the set starts empty.
#[verifier::external_body]
fn pin_set_new() -> (r: indexmap::IndexSet<[u8; 20]>)
    ensures
        pin_items(r) == Seq::<[u8; 20]>::empty(),
{
    indexmap::IndexSet::new()
}

/// Relies on `IndexSet::insert`: a new value is appended, a present one
/// keeps its position.
#[verifier::external_body]
fn pin_insert(s: &mut indexmap::IndexSet<[u8; 20]>, x: [u8; 20])
    ensures
        pin_items(*final(s)) == insert_last(pin_items(*old(s)), x),
{
    s.insert(x);
}

/// Relies on `IndexSet::shift_remove`: the value is taken out and the ones
/// after it keep their relative order.
#[verifier::external_body]
fn pin_remove(s: &mut indexmap::IndexSet<[u8; 20]>, x: &[u8; 20])
    ensures
        pin_items(*final(s)) == shift_removed(pin_items(*old(s)), *x),
{
    s.shift_remove(x);
}

/// Relies on `IndexSet::iter`: the values in the set's order.
#[verifier::external_body]
fn pin_items_vec(s: &indexmap::IndexSet<[u8; 20]>) -> (r: Vec<[u8; 20]>)
    ensures
        r@ == pin_items(*s),
{
    s.iter().copied().collect()
}

/// The commit ids of the patches `names` of the series `v`.
pub open spec fn commit_ids(v: StackView, names: Seq<Seq<char>>) -> Seq<[u8; 20]> {
    names.map_values(|n: Seq<char>| v.patches[n].commit.bytes)
}

/// Inserting each of `xs`, in order.
pub open spec fn insert_each(s: Seq<[u8; 20]>, xs: Seq<[u8; 20]>) -> Seq<[u8; 20]>
    decreases xs.len(),
{
    if xs.len() == 0 {
        s
    } else {
        insert_last(insert_each(s, xs.drop_last()), xs.last())
    }
}

/// Removing each of `xs`, in order.
pub open spec fn remove_each(s: Seq<[u8; 20]>, xs: Seq<[u8; 20]>) -> Seq<[u8; 20]>
    decreases xs.len(),
{
    if xs.len() == 0 {
        s
    } else {
        shift_removed(remove_each(s, xs.drop_last()), xs.last())
    }
}

/// The ids a log commit of `v` must pin, in order: the head, the top, every
/// unapplied and every hidden patch commit, then the previous log commit;
/// the commits of the previous state's patches, which that log commit
/// already reaches, are taken out again.
pub open spec fn pinned_ids(v: StackView, prev_state: Option<StackView>) -> Seq<[u8; 20]> {
    let own = insert_each(
        insert_each(
            insert_last(insert_last(Seq::empty(), v.head.bytes), v.top().bytes),
            commit_ids(v, v.unapplied),
        ),
        commit_ids(v, v.hidden),
    );
    match v.prev {
        None => own,
        Some(p) => {
            let with_prev = insert_last(own, p.bytes);
            match prev_state {
                None => with_prev,
                Some(pv) => remove_each(with_prev, commit_ids(pv, pv.all())),
            }
        },
    }
}

/// Inserts the commit id of each patch of `names`, in order.
fn insert_patch_ids(set: &mut indexmap::IndexSet<[u8; 20]>, state: &StackState, names: &Vec<PatchName>)
    requires
        state.wf(),
        forall|i: int| 0 <= i < names@.len() ==> state@.has(#[trigger] names@[i]@),
    ensures
        pin_items(*final(set)) == insert_each(pin_items(*old(set)), commit_ids(state@, names_of(names@))),
{
    let ghost ids = commit_ids(state@, names_of(names@));
    let mut i: usize = 0;
    while i < names.len()
        invariant
            0 <= i <= names@.len(),
            state.wf(),
            forall|j: int| 0 <= j < names@.len() ==> state@.has(#[trigger] names@[j]@),
            ids == commit_ids(state@, names_of(names@)),
            pin_items(*set) == insert_each(pin_items(*old(set)), ids.subrange(0, i as int)),
        decreases names@.len() - i,
    {
        let d = state.patch(&names[i]);
        let c = match d {
            Some(d) => d.commit,
            None => state.head(),
        };
        proof {
            assert(state@.has(names@[i as int]@));
            assert(ids[i as int] == c.bytes);
            assert(ids.subrange(0, i + 1).drop_last() =~= ids.subrange(0, i as int));
        }
        pin_insert(set, c.bytes);
        i = i + 1;
    }
    proof {
        assert(ids.subrange(0, i as int) =~= ids);
    }
}

/// Removes the commit id of each patch of `names`, in order.
fn remove_patch_ids(set: &mut indexmap::IndexSet<[u8; 20]>, state: &StackState, names: &Vec<PatchName>)
    requires
        state.wf(),
        forall|i: int| 0 <= i < names@.len() ==> state@.has(#[trigger] names@[i]@),
    ensures
        pin_items(*final(set)) == remove_each(pin_items(*old(set)), commit_ids(state@, names_of(names@))),
{
    let ghost ids = commit_ids(state@, names_of(names@));
    let mut i: usize = 0;
    while i < names.len()
        invariant
            0 <= i <= names@.len(),
            state.wf(),
            forall|j: int| 0 <= j < names@.len() ==> state@.has(#[trigger] names@[j]@),
            ids == commit_ids(state@, names_of(names@)),
            pin_items(*set) == remove_each(pin_items(*old(set)), ids.subrange(0, i as int)),
        decreases names@.len() - i,
    {
        let d = state.patch(&names[i]);
        let c = match d {
            Some(d) => d.commit,
            None => state.head(),
        };
        proof {
            assert(state@.has(names@[i as int]@));
            assert(ids[i as int] == c.bytes);
            assert(ids.subrange(0, i + 1).drop_last() =~= ids.subrange(0, i as int));
        }
        pin_remove(set, &c.bytes);
        i = i + 1;
    }
    proof {
        assert(ids.subrange(0, i as int) =~= ids);
    }
}

/// The parents that pin everything the state `state` refers to, given the
/// state recorded in its previous log commit, if there is one.
pub fn pinning_parents(state: &StackState, prev_state: Option<&StackState>) -> (r: Vec<ObjectId>)
    requires
        state.wf(),
        prev_state is Some ==> prev_state->Some_0.wf(),
    ensures
        r@.map_values(|o: ObjectId| o.bytes) == pinned_ids(
            state@,
            match prev_state {
                Some(p) => Some(p@),
                None => None,
            },
        ),
{
    let mut set = pin_set_new();
    pin_insert(&mut set, state.head().bytes);
    pin_insert(&mut set, state.top().bytes);
    let unapplied = state.unapplied();
    let hidden = state.hidden();
    proof {
        state.lemma_listed_have();
        assert forall|j: int| 0 <= j < unapplied@.len() implies state@.has(#[trigger] unapplied@[j]@) by {
            assert(names_of(unapplied@)[j] == unapplied@[j]@);
            assert(state@.unapplied.contains(unapplied@[j]@));
        }
        assert forall|j: int| 0 <= j < hidden@.len() implies state@.has(#[trigger] hidden@[j]@) by {
            assert(names_of(hidden@)[j] == hidden@[j]@);
            assert(state@.hidden.contains(hidden@[j]@));
        }
    }
    insert_patch_ids(&mut set, state, unapplied);
    insert_patch_ids(&mut set, state, hidden);
    match state.prev() {
        None => {},
        Some(p) => {
            pin_insert(&mut set, p.bytes);
            match prev_state {
                None => {},
                Some(ps) => {
                    let all = ps.all_patches();
                    proof {
                        assert forall|j: int| 0 <= j < all@.len() implies ps@.has(#[trigger] all@[j]@) by {
                            assert(names_of(all@)[j] == all@[j]@);
                        }
                    }
                    remove_patch_ids(&mut set, ps, &all);
                },
            }
        },
    }
    let items = pin_items_vec(&set);
    let mut r: Vec<ObjectId> = Vec::new();
    let mut i: usize = 0;
    while i < items.len()
        invariant
            0 <= i <= items@.len(),
            r@.map_values(|o: ObjectId| o.bytes) =~= items@.subrange(0, i as int),
        decreases items@.len() - i,
    {
        let ghost before = r@;
        r.push(ObjectId { bytes: items[i] });
        proof {
            assert(r@ == before.push(ObjectId { bytes: items@[i as int] }));
            assert(r@.map_values(|o: ObjectId| o.bytes) =~= before.map_values(|o: ObjectId| o.bytes).push(items@[i as int]));
            assert(items@.subrange(0, i + 1) =~= items@.subrange(0, i as int).push(items@[i as int]));
        }
        i = i + 1;
    }
    proof {
        assert(items@.subrange(0, i as int) =~= items@);
    }
    r
}

proof fn lemma_insert_last(s: Seq<[u8; 20]>, x: [u8; 20])
    requires
        s.no_duplicates(),
    ensures
        insert_last(s, x).no_duplicates(),
        forall|y: [u8; 20]| #[trigger] insert_last(s, x).contains(y) <==> s.contains(y) || y == x,
{
    if !s.contains(x) {
        let s2 = s.push(x);
        assert forall|y: [u8; 20]| #[trigger] s2.contains(y) <==> s.contains(y) || y == x by {
            if s2.contains(y) && y != x {
                let i = choose|i: int| 0 <= i < s2.len() && s2[i] == y;
                assert(s[i] == y);
            }
            if s.contains(y) {
                let i = choose|i: int| 0 <= i < s.len() && s[i] == y;
                assert(s2[i] == y);
            }
            if y == x {
                assert(s2[s.len() as int] == x);
            }
        }
        assert forall|i: int, j: int| 0 <= i < s2.len() && 0 <= j < s2.len() && i != j implies s2[i] != s2[j] by {
            if i == s.len() {
                assert(s.contains(s[j]));
            } else if j == s.len() {
                assert(s.contains(s[i]));
            }
        }
    }
}

proof fn lemma_shift_removed(s: Seq<[u8; 20]>, x: [u8; 20])
    requires
        s.no_duplicates(),
    ensures
        shift_removed(s, x).no_duplicates(),
        forall|y: [u8; 20]| #[trigger] shift_removed(s, x).contains(y) <==> s.contains(y) && y != x,
{
    if s.contains(x) {
        let k = s.index_of(x);
        assert(0 <= k < s.len() && s[k] == x);
        let s2 = s.remove(k);
        assert forall|y: [u8; 20]| #[trigger] s2.contains(y) <==> s.contains(y) && y != x by {
            if s2.contains(y) {
                let i = choose|i: int| 0 <= i < s2.len() && s2[i] == y;
                let oi = if i < k { i } else { i + 1 };
                assert(s[oi] == y);
                assert(oi != k);
            }
            if s.contains(y) && y != x {
                let i = choose|i: int| 0 <= i < s.len() && s[i] == y;
                let ni = if i < k { i } else { i - 1 };
                assert(s2[ni] == y);
            }
        }
        assert forall|i: int, j: int| 0 <= i < s2.len() && 0 <= j < s2.len() && i != j implies s2[i] != s2[j] by {
            let oi = if i < k { i } else { i + 1 };
            let oj = if j < k { j } else { j + 1 };
            assert(s2[i] == s[oi] && s2[j] == s[oj]);
        }
    }
}

proof fn lemma_insert_each(s: Seq<[u8; 20]>, xs: Seq<[u8; 20]>)
    requires
        s.no_duplicates(),
    ensures
        insert_each(s, xs).no_duplicates(),
        forall|y: [u8; 20]| #[trigger] insert_each(s, xs).contains(y) <==> s.contains(y) || xs.contains(y),
    decreases xs.len(),
{
    if xs.len() > 0 {
        let init = xs.drop_last();
        lemma_insert_each(s, init);
        lemma_insert_last(insert_each(s, init), xs.last());
        assert forall|y: [u8; 20]| xs.contains(y) <==> init.contains(y) || y == xs.last() by {
            if xs.contains(y) {
                let i = choose|i: int| 0 <= i < xs.len() && xs[i] == y;
                if i < xs.len() - 1 {
                    assert(init[i] == y);
                }
            }
            if init.contains(y) {
                let i = choose|i: int| 0 <= i < init.len() && init[i] == y;
                assert(xs[i] == y);
            }
        }
    }
}

proof fn lemma_remove_each(s: Seq<[u8; 20]>, xs: Seq<[u8; 20]>)
    requires
        s.no_duplicates(),
    ensures
        remove_each(s, xs).no_duplicates(),
        forall|y: [u8; 20]| #[trigger] remove_each(s, xs).contains(y) <==> s.contains(y) && !xs.contains(y),
    decreases xs.len(),
{
    if xs.len() > 0 {
        let init = xs.drop_last();
        lemma_remove_each(s, init);
        lemma_shift_removed(remove_each(s, init), xs.last());
        assert forall|y: [u8; 20]| xs.contains(y) <==> init.contains(y) || y == xs.last() by {
            if xs.contains(y) {
                let i = choose|i: int| 0 <= i < xs.len() && xs[i] == y;
                if i < xs.len() - 1 {
                    assert(init[i] == y);
                }
            }
            if init.contains(y) {
                let i = choose|i: int| 0 <= i < init.len() && init[i] == y;
                assert(xs[i] == y);
            }
        }
    }
}

/// The ids the state itself refers to directly: its head, its top, the
/// commits of its unapplied and hidden patches, and its previous log commit.
pub open spec fn own_ids(v: StackView) -> Set<[u8; 20]> {
    let base = set![v.head.bytes, v.top().bytes] + commit_ids(v, v.unapplied).to_set()
        + commit_ids(v, v.hidden).to_set();
    match v.prev {
        Some(p) => base.insert(p.bytes),
        None => base,
    }
}

/// The pinning parents hold no id twice, and hold exactly the ids the state
/// refers to directly, less the previous state's patch commits, which the
/// previous log commit already reaches.
pub proof fn lemma_pinned_ids(v: StackView, prev_state: Option<StackView>, y: [u8; 20])
    ensures
        pinned_ids(v, prev_state).no_duplicates(),
        pinned_ids(v, prev_state).contains(y) <==> own_ids(v).contains(y) && !(v.prev is Some
            && prev_state is Some && commit_ids(
            prev_state->Some_0,
            prev_state->Some_0.all(),
        ).contains(y)),
{
    let e = Seq::<[u8; 20]>::empty();
    lemma_insert_last(e, v.head.bytes);
    let s1 = insert_last(e, v.head.bytes);
    lemma_insert_last(s1, v.top().bytes);
    let s2 = insert_last(s1, v.top().bytes);
    let un = commit_ids(v, v.unapplied);
    let hi = commit_ids(v, v.hidden);
    lemma_insert_each(s2, un);
    let s3 = insert_each(s2, un);
    lemma_insert_each(s3, hi);
    let own = insert_each(s3, hi);
    assert(own.contains(y) <==> y == v.head.bytes || y == v.top().bytes || un.contains(y)
        || hi.contains(y));
    match v.prev {
        None => {},
        Some(p) => {
            lemma_insert_last(own, p.bytes);
            match prev_state {
                None => {},
                Some(pv) => {
                    lemma_remove_each(insert_last(own, p.bytes), commit_ids(pv, pv.all()));
                },
            }
        },
    }
}

/// A log commit whose parents come from reducing the pinning parents of a
/// state reaches every id the state refers to directly, except the previous
/// state's patch commits, which its previous log commit reaches.
pub proof fn lemma_log_commit_pins(
    f: &FanIn,
    v: StackView,
    prev_state: Option<StackView>,
    y: ObjectId,
)
    requires
        f.wf(),
        f.initial().map_values(|o: ObjectId| o.bytes) == pinned_ids(v, prev_state),
        own_ids(v).contains(y.bytes),
        !(v.prev is Some && prev_state is Some && commit_ids(
            prev_state->Some_0,
            prev_state->Some_0.all(),
        ).contains(y.bytes)),
    ensures
        reaches(f.pending(), f.groups(), y),
{
    lemma_pinned_ids(v, prev_state, y.bytes);
    let ids = f.initial().map_values(|o: ObjectId| o.bytes);
    let i = choose|i: int| 0 <= i < ids.len() && ids[i] == y.bytes;
    assert(f.initial()[i].bytes == y.bytes);
    assert(f.initial()[i] == y);
    assert(f.initial().contains(y));
    f.lemma_pins_all(y);
}

/// Every applied commit is reached from such a log commit too: the top is
/// reached through the pinning parents, and from the top the recorded
/// parents lead down through every applied commit to `head`.
pub proof fn lemma_log_commit_pins_applied(
    f: &FanIn,
    v: StackView,
    prev_state: Option<StackView>,
    i: int,
)
    requires
        v.invariants(),
        f.wf(),
        f.initial().map_values(|o: ObjectId| o.bytes) == pinned_ids(v, prev_state),
        !(v.prev is Some && prev_state is Some && commit_ids(
            prev_state->Some_0,
            prev_state->Some_0.all(),
        ).contains(v.top().bytes)),
        0 <= i < v.applied.len(),
    ensures
        reaches(f.pending(), f.groups(), v.top()),
        v.top() == v.patches[v.applied.last()].commit,
        forall|j: int|
            i < j < v.applied.len() ==> #[trigger] v.patches[v.applied[j]].parent
                == v.patches[v.applied[j - 1]].commit,
        v.patches[v.applied[0]].parent == v.head,
{
    assert(own_ids(v).contains(v.top().bytes));
    lemma_log_commit_pins(f, v, prev_state, v.top());
    assert(v.patches[v.applied[0]].parent == v.base_of(0));
    assert forall|j: int| i < j < v.applied.len() implies #[trigger] v.patches[v.applied[j]].parent
        == v.patches[v.applied[j - 1]].commit by {
        assert(v.patches[v.applied[j]].parent == v.base_of(j));
    }
}

} // verus!
