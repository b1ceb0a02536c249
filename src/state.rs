use vstd::prelude::*;

use crate::error::Error;
use crate::oid::ObjectId;
use crate::patchname::{names_of, PatchName};
use crate::stackjson::STACK_FORMAT_VERSION;

verus! {

/// The commit realizing a patch, with the first parent of that commit.
#[derive(Clone, Copy, Debug)]
pub struct PatchDescriptor {
    pub commit: ObjectId,
    pub parent: ObjectId,
}

/// One entry of a stack's patch table.
#[derive(Debug)]
pub struct PatchEntry {
    pub name: PatchName,
    pub desc: PatchDescriptor,
}

/// The mathematical model of a stack state.
pub struct StackView {
    pub prev: Option<ObjectId>,
    pub head: ObjectId,
    pub applied: Seq<Seq<char>>,
    pub unapplied: Seq<Seq<char>>,
    pub hidden: Seq<Seq<char>>,
    pub patches: Map<Seq<char>, PatchDescriptor>,
}

impl StackView {
    /// Every patch name of the series: applied, then unapplied, then hidden.
    pub open spec fn all(self) -> Seq<Seq<char>> {
        self.applied + self.unapplied + self.hidden
    }

    /// The commit the next pushed patch builds upon.
    pub open spec fn top(self) -> ObjectId {
        if self.applied.len() == 0 {
            self.head
        } else {
            self.patches[self.applied.last()].commit
        }
    }

    /// The commit that the applied patch at position `i` must have as parent.
    pub open spec fn base_of(self, i: int) -> ObjectId {
        if i == 0 {
            self.head
        } else {
            self.patches[self.applied[i - 1]].commit
        }
    }

    /// The stack invariants: no name occurs twice over the three
    /// sequences, the patch table holds exactly those names, and the applied
    /// patches form a parent chain rooted at `head`.
    pub open spec fn invariants(self) -> bool {
        &&& self.all().no_duplicates()
        &&& forall|n: Seq<char>| #[trigger]
            self.patches.contains_key(n) <==> self.all().contains(n)
        &&& forall|i: int|
            0 <= i < self.applied.len() ==> #[trigger] self.patches[self.applied[i]].parent
                == self.base_of(i)
    }

    /// Whether `n` names a patch of the series.
    pub open spec fn has(self, n: Seq<char>) -> bool {
        self.all().contains(n)
    }
}


/// Entry `i` of `e` carries the name `n`.
pub open spec fn entry_with(e: Seq<PatchEntry>, n: Seq<char>, i: int) -> bool {
    0 <= i < e.len() && e[i].name@ == n
}

/// The patch table held by a sequence of entries.
pub open spec fn table_of(e: Seq<PatchEntry>) -> Map<Seq<char>, PatchDescriptor> {
    Map::new(
        |n: Seq<char>| exists|i: int| entry_with(e, n, i),
        |n: Seq<char>| e[choose|i: int| entry_with(e, n, i)].desc,
    )
}

/// No two entries carry the same name.
pub open spec fn keys_unique(e: Seq<PatchEntry>) -> bool {
    forall|i: int, j: int|
        0 <= i < e.len() && 0 <= j < e.len() && i != j ==> #[trigger] e[i].name@ != #[trigger] e[j].name@
}

proof fn lemma_table_at(e: Seq<PatchEntry>, i: int)
    requires
        keys_unique(e),
        0 <= i < e.len(),
    ensures
        table_of(e).contains_key(e[i].name@),
        table_of(e)[e[i].name@] == e[i].desc,
{
    let n = e[i].name@;
    assert(entry_with(e, n, i));
    let k = choose|k: int| entry_with(e, n, k);
    assert(k == i);
}

proof fn lemma_table_push(e: Seq<PatchEntry>, x: PatchEntry)
    requires
        keys_unique(e),
        !table_of(e).contains_key(x.name@),
    ensures
        keys_unique(e.push(x)),
        table_of(e.push(x)) =~= table_of(e).insert(x.name@, x.desc),
{
    let e2 = e.push(x);
    assert forall|i: int, j: int|
        0 <= i < e2.len() && 0 <= j < e2.len() && i != j implies #[trigger] e2[i].name@
        != #[trigger] e2[j].name@ by {
        if i == e.len() as int {
            assert(!entry_with(e, x.name@, j));
        } else if j == e.len() as int {
            assert(!entry_with(e, x.name@, i));
        }
    }
    assert forall|n: Seq<char>| #[trigger] table_of(e2).contains_key(n) implies table_of(
        e,
    ).insert(x.name@, x.desc).contains_key(n) by {
        let i = choose|i: int| entry_with(e2, n, i);
        if i < e.len() {
            assert(entry_with(e, n, i));
        }
    }
    assert forall|n: Seq<char>| #[trigger]
        table_of(e).insert(x.name@, x.desc).contains_key(n) implies table_of(e2).contains_key(n)
        && table_of(e2)[n] == table_of(e).insert(x.name@, x.desc)[n] by {
        if n == x.name@ {
            lemma_table_at(e2, e.len() as int);
        } else {
            let i = choose|i: int| entry_with(e, n, i);
            assert(entry_with(e2, n, i));
            lemma_table_at(e, i);
            lemma_table_at(e2, i);
        }
    }
}

proof fn lemma_table_remove(e: Seq<PatchEntry>, k: int)
    requires
        keys_unique(e),
        0 <= k < e.len(),
    ensures
        keys_unique(e.remove(k)),
        table_of(e.remove(k)) =~= table_of(e).remove(e[k].name@),
{
    let e2 = e.remove(k);
    let gone = e[k].name@;
    assert forall|i: int, j: int|
        0 <= i < e2.len() && 0 <= j < e2.len() && i != j implies #[trigger] e2[i].name@
        != #[trigger] e2[j].name@ by {
        let oi = if i < k { i } else { i + 1 };
        let oj = if j < k { j } else { j + 1 };
        assert(e2[i] == e[oi] && e2[j] == e[oj]);
    }
    assert forall|n: Seq<char>| #[trigger] table_of(e2).contains_key(n) implies table_of(
        e,
    ).remove(gone).contains_key(n) && table_of(e2)[n] == table_of(e).remove(gone)[n] by {
        let i = choose|i: int| entry_with(e2, n, i);
        let oi = if i < k { i } else { i + 1 };
        assert(e2[i] == e[oi]);
        lemma_table_at(e, oi);
        lemma_table_at(e2, i);
    }
    assert forall|n: Seq<char>| #[trigger]
        table_of(e).remove(gone).contains_key(n) implies table_of(e2).contains_key(n) by {
        let i = choose|i: int| entry_with(e, n, i);
        let ni = if i < k { i } else { i - 1 };
        assert(e2[ni] == e[i]);
        assert(entry_with(e2, n, ni));
    }
}

/// The position of `name` in `v`, if it occurs there.
fn position(v: &Vec<PatchName>, name: &PatchName) -> (r: Option<usize>)
    ensures
        r is Some ==> r->Some_0 < v@.len() && v@[r->Some_0 as int]@ == name@,
        r is None ==> !names_of(v@).contains(name@),
{
    let mut i: usize = 0;
    while i < v.len()
        invariant
            0 <= i <= v@.len(),
            forall|j: int| 0 <= j < i ==> v@[j]@ != name@,
        decreases v@.len() - i,
    {
        if v[i].same(name) {
            return Some(i);
        }
        i = i + 1;
    }
    assert forall|j: int| 0 <= j < names_of(v@).len() implies names_of(v@)[j] != name@ by {
        assert(names_of(v@)[j] == v@[j]@);
    }
    None
}

/// The position of the entry named `name`, if there is one.
fn find_entry(e: &Vec<PatchEntry>, name: &PatchName) -> (r: Option<usize>)
    ensures
        r is Some ==> r->Some_0 < e@.len() && e@[r->Some_0 as int].name@ == name@,
        r is None ==> !table_of(e@).contains_key(name@),
{
    let mut i: usize = 0;
    while i < e.len()
        invariant
            0 <= i <= e@.len(),
            forall|j: int| 0 <= j < i ==> e@[j].name@ != name@,
        decreases e@.len() - i,
    {
        if e[i].name.same(name) {
            return Some(i);
        }
        i = i + 1;
    }
    None
}



/// `s` with every occurrence of `from` replaced by `to`.
pub open spec fn rename_in(s: Seq<Seq<char>>, from: Seq<char>, to: Seq<char>) -> Seq<Seq<char>> {
    s.map_values(|x: Seq<char>| if x == from { to } else { x })
}

/// The model after pushing patch `n`, realized by `d`, onto the applied
/// sequence.
pub open spec fn pushed(v: StackView, n: Seq<char>, d: PatchDescriptor) -> StackView {
    StackView { applied: v.applied.push(n), patches: v.patches.insert(n, d), ..v }
}

/// The model after moving the last applied patch to the front of the
/// unapplied sequence.
pub open spec fn popped(v: StackView) -> StackView {
    StackView {
        applied: v.applied.drop_last(),
        unapplied: seq![v.applied.last()] + v.unapplied,
        ..v
    }
}

/// The model after renaming patch `from` to `to`.
pub open spec fn renamed(v: StackView, from: Seq<char>, to: Seq<char>) -> StackView {
    StackView {
        applied: rename_in(v.applied, from, to),
        unapplied: rename_in(v.unapplied, from, to),
        hidden: rename_in(v.hidden, from, to),
        patches: v.patches.remove(from).insert(to, v.patches[from]),
        ..v
    }
}

/// Whether patch `n` can be deleted without breaking the applied chain: it
/// is not applied, or it is the top.
pub open spec fn deletable(v: StackView, n: Seq<char>) -> bool {
    !v.applied.contains(n) || (v.applied.len() > 0 && v.applied.last() == n)
}

/// The model after removing patch `n`, which is unapplied, hidden or the
/// top, from its sequence and from the patch table.
pub open spec fn deleted(v: StackView, n: Seq<char>) -> StackView {
    StackView {
        applied: if v.applied.len() > 0 && v.applied.last() == n {
            v.applied.drop_last()
        } else {
            v.applied
        },
        unapplied: v.unapplied.remove_value(n),
        hidden: v.hidden.remove_value(n),
        patches: v.patches.remove(n),
        ..v
    }
}

proof fn lemma_names_push(v: Seq<PatchName>, x: PatchName)
    ensures
        names_of(v.push(x)) =~= names_of(v).push(x@),
{
}

proof fn lemma_names_remove(v: Seq<PatchName>, k: int)
    requires
        0 <= k < v.len(),
    ensures
        names_of(v.remove(k)) =~= names_of(v).remove(k),
{
}

proof fn lemma_rename_at(s: Seq<Seq<char>>, k: int, from: Seq<char>, to: Seq<char>)
    requires
        s.no_duplicates(),
        0 <= k < s.len(),
        s[k] == from,
    ensures
        rename_in(s, from, to) =~= s.update(k, to),
{
}

proof fn lemma_rename_absent(s: Seq<Seq<char>>, from: Seq<char>, to: Seq<char>)
    requires
        !s.contains(from),
    ensures
        rename_in(s, from, to) =~= s,
{
    assert forall|j: int| 0 <= j < s.len() implies rename_in(s, from, to)[j] == s[j] by {
        assert(s[j] != from);
    }
}

proof fn lemma_remove_value_at(s: Seq<Seq<char>>, k: int)
    requires
        s.no_duplicates(),
        0 <= k < s.len(),
    ensures
        s.remove_value(s[k]) =~= s.remove(k),
{
    let x = s[k];
    s.index_of_first_ensures(x);
    assert(s.contains(x));
}

proof fn lemma_remove_value_absent(s: Seq<Seq<char>>, x: Seq<char>)
    requires
        !s.contains(x),
    ensures
        s.remove_value(x) =~= s,
{
    s.index_of_first_ensures(x);
}


proof fn lemma_all_index(v: StackView, i: int)
    requires
        0 <= i < v.applied.len(),
    ensures
        v.all()[i] == v.applied[i],
        v.all().contains(v.applied[i]),
{
    assert(v.all()[i] == v.applied[i]);
}

proof fn lemma_push_invariants(v: StackView, n: Seq<char>, d: PatchDescriptor)
    requires
        v.invariants(),
        !v.has(n),
        d.parent == v.top(),
    ensures
        pushed(v, n, d).invariants(),
{
    let v2 = pushed(v, n, d);
    let a = v.all();
    let alen = v.applied.len() as int;
    assert(v2.all() =~= a.insert(alen, n));
    let a2 = v2.all();
    assert forall|i: int, j: int| 0 <= i < a2.len() && 0 <= j < a2.len() && i != j implies a2[i]
        != a2[j] by {
        let oi = if i < alen { i } else { i - 1 };
        let oj = if j < alen { j } else { j - 1 };
        if i != alen && j != alen {
            assert(a2[i] == a[oi] && a2[j] == a[oj]);
        } else if i == alen {
            assert(a2[j] == a[oj]);
            assert(a.contains(a[oj]));
        } else {
            assert(a2[i] == a[oi]);
            assert(a.contains(a[oi]));
        }
    }
    assert forall|x: Seq<char>| #[trigger] v2.patches.contains_key(x) <==> a2.contains(x) by {
        if a2.contains(x) && x != n {
            let i = choose|i: int| 0 <= i < a2.len() && a2[i] == x;
            let oi = if i < alen { i } else { i - 1 };
            assert(a[oi] == x);
            assert(v.patches.contains_key(x));
        }
        if v.patches.contains_key(x) {
            let i = choose|i: int| 0 <= i < a.len() && a[i] == x;
            let ni = if i < alen { i } else { i + 1 };
            assert(a2[ni] == x);
        }
        if x == n {
            assert(a2[alen] == n);
        }
    }
    assert forall|i: int| 0 <= i < v2.applied.len() implies #[trigger] v2.patches[v2.applied[i]].parent
        == v2.base_of(i) by {
        if i < alen {
            lemma_all_index(v, i);
            assert(v.applied[i] != n);
            assert(v.patches[v.applied[i]].parent == v.base_of(i));
            if i > 0 {
                lemma_all_index(v, i - 1);
                assert(v2.applied[i - 1] == v.applied[i - 1]);
            }
        } else if alen > 0 {
            lemma_all_index(v, alen - 1);
            assert(v2.applied[alen - 1] == v.applied.last());
        }
    }
}

proof fn lemma_pop_invariants(v: StackView)
    requires
        v.invariants(),
        v.applied.len() > 0,
    ensures
        popped(v).invariants(),
{
    let v2 = popped(v);
    assert(v2.all() =~= v.all());
    assert forall|i: int| 0 <= i < v2.applied.len() implies #[trigger] v2.patches[v2.applied[i]].parent
        == v2.base_of(i) by {
        assert(v2.applied[i] == v.applied[i]);
        assert(v.patches[v.applied[i]].parent == v.base_of(i));
    }
}


proof fn lemma_parts_unique(v: StackView)
    requires
        v.all().no_duplicates(),
    ensures
        v.applied.no_duplicates(),
        v.unapplied.no_duplicates(),
        v.hidden.no_duplicates(),
        forall|x: Seq<char>| v.applied.contains(x) ==> #[trigger] v.all().contains(x),
        forall|x: Seq<char>| v.unapplied.contains(x) ==> #[trigger] v.all().contains(x),
        forall|x: Seq<char>| v.hidden.contains(x) ==> #[trigger] v.all().contains(x),
        forall|x: Seq<char>| #[trigger] v.all().contains(x) ==> v.applied.contains(x) || v.unapplied.contains(x) || v.hidden.contains(x),
        forall|x: Seq<char>| v.applied.contains(x) ==> !v.unapplied.contains(x) && !v.hidden.contains(x),
        forall|x: Seq<char>| v.unapplied.contains(x) ==> !v.hidden.contains(x),
{
    let a = v.all();
    let la = v.applied.len() as int;
    let lu = v.unapplied.len() as int;
    assert forall|i: int| 0 <= i < la implies a[i] == v.applied[i] by {}
    assert forall|i: int| 0 <= i < lu implies a[la + i] == v.unapplied[i] by {}
    assert forall|i: int| 0 <= i < v.hidden.len() implies a[la + lu + i] == v.hidden[i] by {}
    assert forall|x: Seq<char>| v.applied.contains(x) implies #[trigger] v.all().contains(x) by {
        let i = choose|i: int| 0 <= i < la && v.applied[i] == x;
        assert(a[i] == x);
    }
    assert forall|x: Seq<char>| v.unapplied.contains(x) implies #[trigger] v.all().contains(x) by {
        let i = choose|i: int| 0 <= i < lu && v.unapplied[i] == x;
        assert(a[la + i] == x);
    }
    assert forall|x: Seq<char>| v.hidden.contains(x) implies #[trigger] v.all().contains(x) by {
        let i = choose|i: int| 0 <= i < v.hidden.len() && v.hidden[i] == x;
        assert(a[la + lu + i] == x);
    }
    assert forall|x: Seq<char>| #[trigger] v.all().contains(x) implies v.applied.contains(x) || v.unapplied.contains(x) || v.hidden.contains(x) by {
        let i = choose|i: int| 0 <= i < a.len() && a[i] == x;
        if i < la {
            assert(v.applied[i] == x);
        } else if i < la + lu {
            assert(v.unapplied[i - la] == x);
        } else {
            assert(v.hidden[i - la - lu] == x);
        }
    }
    assert forall|x: Seq<char>| v.applied.contains(x) implies !v.unapplied.contains(x) && !v.hidden.contains(x) by {
        let i = choose|i: int| 0 <= i < la && v.applied[i] == x;
        if v.unapplied.contains(x) {
            let j = choose|j: int| 0 <= j < lu && v.unapplied[j] == x;
            assert(a[i] == a[la + j]);
        }
        if v.hidden.contains(x) {
            let j = choose|j: int| 0 <= j < v.hidden.len() && v.hidden[j] == x;
            assert(a[i] == a[la + lu + j]);
        }
    }
    assert forall|x: Seq<char>| v.unapplied.contains(x) implies !v.hidden.contains(x) by {
        let i = choose|i: int| 0 <= i < lu && v.unapplied[i] == x;
        if v.hidden.contains(x) {
            let j = choose|j: int| 0 <= j < v.hidden.len() && v.hidden[j] == x;
            assert(a[la + i] == a[la + lu + j]);
        }
    }
    assert forall|i: int, j: int| 0 <= i < la && 0 <= j < la && i != j implies v.applied[i] != v.applied[j] by {
        assert(a[i] == v.applied[i] && a[j] == v.applied[j]);
    }
    assert forall|i: int, j: int| 0 <= i < lu && 0 <= j < lu && i != j implies v.unapplied[i] != v.unapplied[j] by {
        assert(a[la + i] == v.unapplied[i] && a[la + j] == v.unapplied[j]);
    }
    assert forall|i: int, j: int| 0 <= i < v.hidden.len() && 0 <= j < v.hidden.len() && i != j implies v.hidden[i] != v.hidden[j] by {
        assert(a[la + lu + i] == v.hidden[i] && a[la + lu + j] == v.hidden[j]);
    }
}

proof fn lemma_rename_invariants(v: StackView, from: Seq<char>, to: Seq<char>)
    requires
        v.invariants(),
        v.has(from),
        !v.has(to),
    ensures
        renamed(v, from, to).invariants(),
{
    let v2 = renamed(v, from, to);
    let a = v.all();
    let k = choose|k: int| 0 <= k < a.len() && a[k] == from;
    assert(v2.all() =~= rename_in(a, from, to));
    lemma_rename_at(a, k, from, to);
    let a2 = v2.all();
    assert(a2 =~= a.update(k, to));
    assert forall|i: int, j: int| 0 <= i < a2.len() && 0 <= j < a2.len() && i != j implies a2[i]
        != a2[j] by {
        if i == k {
            assert(a.contains(a[j]));
        } else if j == k {
            assert(a.contains(a[i]));
        }
    }
    assert forall|x: Seq<char>| #[trigger] v2.patches.contains_key(x) <==> a2.contains(x) by {
        if a2.contains(x) {
            let i = choose|i: int| 0 <= i < a2.len() && a2[i] == x;
            if i != k {
                assert(a[i] == x);
                assert(v.patches.contains_key(x));
            }
        }
        if v2.patches.contains_key(x) && x != to {
            assert(v.patches.contains_key(x));
            let i = choose|i: int| 0 <= i < a.len() && a[i] == x;
            assert(a2[i] == x);
        }
        if x == to {
            assert(a2[k] == to);
        }
    }
    assert forall|i: int| 0 <= i < v2.applied.len() implies #[trigger] v2.patches[v2.applied[i]].parent
        == v2.base_of(i) by {
        lemma_all_index(v, i);
        assert(v.patches[v.applied[i]].parent == v.base_of(i));
        assert(v.applied[i] != to);
        if i > 0 {
            lemma_all_index(v, i - 1);
            assert(v.applied[i - 1] != to);
        }
    }
}

proof fn lemma_seq_remove(a: Seq<Seq<char>>, k: int)
    requires
        a.no_duplicates(),
        0 <= k < a.len(),
    ensures
        a.remove(k).no_duplicates(),
        forall|x: Seq<char>| #[trigger] a.remove(k).contains(x) <==> a.contains(x) && x != a[k],
{
    let a2 = a.remove(k);
    assert forall|i: int, j: int| 0 <= i < a2.len() && 0 <= j < a2.len() && i != j implies a2[i]
        != a2[j] by {
        let oi = if i < k { i } else { i + 1 };
        let oj = if j < k { j } else { j + 1 };
        assert(a2[i] == a[oi] && a2[j] == a[oj]);
    }
    assert forall|x: Seq<char>| #[trigger] a2.contains(x) <==> a.contains(x) && x != a[k] by {
        if a2.contains(x) {
            let i = choose|i: int| 0 <= i < a2.len() && a2[i] == x;
            let oi = if i < k { i } else { i + 1 };
            assert(a[oi] == x);
        }
        if a.contains(x) && x != a[k] {
            let i = choose|i: int| 0 <= i < a.len() && a[i] == x;
            let ni = if i < k { i } else { i - 1 };
            assert(a2[ni] == x);
        }
    }
}

proof fn lemma_delete_all(v: StackView, n: Seq<char>) -> (k: int)
    requires
        v.all().no_duplicates(),
        v.has(n),
        deletable(v, n),
    ensures
        0 <= k < v.all().len(),
        v.all()[k] == n,
        k >= deleted(v, n).applied.len(),
        deleted(v, n).all() == v.all().remove(k),
{
    lemma_parts_unique(v);
    let a = v.all();
    let la = v.applied.len() as int;
    let lu = v.unapplied.len() as int;
    if v.applied.contains(n) {
        assert(v.applied[la - 1] == n);
        lemma_remove_value_absent(v.unapplied, n);
        lemma_remove_value_absent(v.hidden, n);
        assert(a[la - 1] == n);
        assert(deleted(v, n).all() =~= a.remove(la - 1));
        la - 1
    } else if v.unapplied.contains(n) {
        let j = choose|j: int| 0 <= j < lu && v.unapplied[j] == n;
        lemma_remove_value_at(v.unapplied, j);
        lemma_remove_value_absent(v.hidden, n);
        assert(deleted(v, n).all() =~= a.remove(la + j));
        la + j
    } else {
        let j = choose|j: int| 0 <= j < v.hidden.len() && v.hidden[j] == n;
        lemma_remove_value_at(v.hidden, j);
        lemma_remove_value_absent(v.unapplied, n);
        assert(deleted(v, n).all() =~= a.remove(la + lu + j));
        la + lu + j
    }
}

proof fn lemma_delete_invariants(v: StackView, n: Seq<char>)
    requires
        v.invariants(),
        v.has(n),
        deletable(v, n),
    ensures
        deleted(v, n).invariants(),
{
    let v2 = deleted(v, n);
    let k = lemma_delete_all(v, n);
    lemma_seq_remove(v.all(), k);
    assert forall|x: Seq<char>| #[trigger] v2.patches.contains_key(x) <==> v2.all().contains(x) by {
        assert(v2.all().contains(x) <==> v.all().contains(x) && x != n);
    }
    assert forall|i: int| 0 <= i < v2.applied.len() implies #[trigger] v2.patches[v2.applied[i]].parent
        == v2.base_of(i) by {
        lemma_all_index(v, i);
        assert(v2.applied[i] == v.applied[i]);
        assert(v.patches[v.applied[i]].parent == v.base_of(i));
        assert(i != k);
        assert(v.all()[i] != v.all()[k]);
        if i > 0 {
            lemma_all_index(v, i - 1);
            assert(v2.applied[i - 1] == v.applied[i - 1]);
            assert(v.all()[i - 1] != v.all()[k]);
        }
    }
}

/// Replaces the name at position `k` of `v`.
fn replace_at(v: &mut Vec<PatchName>, k: usize, x: PatchName)
    requires
        k < old(v)@.len(),
    ensures
        names_of(final(v)@) == names_of(old(v)@).update(k as int, x@),
{
    v.remove(k);
    v.insert(k, x);
    proof {
        assert(names_of(v@) =~= names_of(old(v)@).update(k as int, x@));
    }
}

/// Renames `from` to `to` inside `v`, where `from` occurs at most once.
fn rename_within(v: &mut Vec<PatchName>, from: &PatchName, to: &PatchName)
    requires
        names_of(old(v)@).no_duplicates(),
    ensures
        names_of(final(v)@) == rename_in(names_of(old(v)@), from@, to@),
{
    match position(v, from) {
        Some(k) => {
            proof {
                assert(names_of(v@)[k as int] == from@);
                lemma_rename_at(names_of(v@), k as int, from@, to@);
            }
            replace_at(v, k, to.duplicate());
            proof {
                assert(names_of(v@)[k as int] == to@);
            }
        },
        None => {
            proof {
                lemma_rename_absent(names_of(v@), from@, to@);
            }
        },
    }
}

/// Removes `name` from `v`, where it occurs at most once.
fn remove_within(v: &mut Vec<PatchName>, name: &PatchName)
    requires
        names_of(old(v)@).no_duplicates(),
    ensures
        names_of(final(v)@) == names_of(old(v)@).remove_value(name@),
{
    match position(v, name) {
        Some(k) => {
            proof {
                assert(names_of(v@)[k as int] == name@);
                lemma_remove_value_at(names_of(v@), k as int);
                lemma_names_remove(v@, k as int);
            }
            v.remove(k);
        },
        None => {
            proof {
                lemma_remove_value_absent(names_of(v@), name@);
            }
        },
    }
}


/// The model of a stack state given by its parts.
pub open spec fn parts_view(
    prev: Option<ObjectId>,
    head: ObjectId,
    applied: Seq<PatchName>,
    unapplied: Seq<PatchName>,
    hidden: Seq<PatchName>,
    patches: Seq<PatchEntry>,
) -> StackView {
    StackView {
        prev,
        head,
        applied: names_of(applied),
        unapplied: names_of(unapplied),
        hidden: names_of(hidden),
        patches: table_of(patches),
    }
}

/// Whether `n` names no two distinct positions of `s`.
fn no_duplicate_names(v: &Vec<PatchName>) -> (r: bool)
    ensures
        r == names_of(v@).no_duplicates(),
{
    let n = v.len();
    let mut i: usize = 0;
    while i < n
        invariant
            n == v@.len(),
            0 <= i <= n,
            forall|a: int, b: int| 0 <= a < i && 0 <= b < n && a != b ==> v@[a]@ != v@[b]@,
        decreases n - i,
    {
        let mut j: usize = 0;
        while j < n
            invariant
                n == v@.len(),
                0 <= i < n,
                0 <= j <= n,
                forall|a: int, b: int| 0 <= a < i && 0 <= b < n && a != b ==> v@[a]@ != v@[b]@,
                forall|b: int| 0 <= b < j && b != i ==> v@[i as int]@ != v@[b]@,
            decreases n - j,
        {
            if j != i && v[i].same(&v[j]) {
                proof {
                    assert(names_of(v@)[i as int] == names_of(v@)[j as int]);
                }
                return false;
            }
            j = j + 1;
        }
        i = i + 1;
    }
    proof {
        assert forall|a: int, b: int| 0 <= a < names_of(v@).len() && 0 <= b < names_of(v@).len() && a != b implies names_of(v@)[a] != names_of(v@)[b] by {
            assert(names_of(v@)[a] == v@[a]@);
            assert(names_of(v@)[b] == v@[b]@);
        }
    }
    true
}

/// Whether no two entries share a name.
fn entry_names_unique(e: &Vec<PatchEntry>) -> (r: bool)
    ensures
        r == keys_unique(e@),
{
    let n = e.len();
    let mut i: usize = 0;
    while i < n
        invariant
            n == e@.len(),
            0 <= i <= n,
            forall|a: int, b: int| 0 <= a < i && 0 <= b < n && a != b ==> e@[a].name@ != e@[b].name@,
        decreases n - i,
    {
        let mut j: usize = 0;
        while j < n
            invariant
                n == e@.len(),
                0 <= i < n,
                0 <= j <= n,
                forall|a: int, b: int| 0 <= a < i && 0 <= b < n && a != b ==> e@[a].name@ != e@[b].name@,
                forall|b: int| 0 <= b < j && b != i ==> e@[i as int].name@ != e@[b].name@,
            decreases n - j,
        {
            if j != i && e[i].name.same(&e[j].name) {
                return false;
            }
            j = j + 1;
        }
        i = i + 1;
    }
    true
}


/// The model after moving the unapplied patch `n` to the end of the hidden
/// sequence.
pub open spec fn hidden_away(v: StackView, n: Seq<char>) -> StackView {
    StackView { unapplied: v.unapplied.remove_value(n), hidden: v.hidden.push(n), ..v }
}

/// The model after moving the hidden patch `n` to the end of the unapplied
/// sequence.
pub open spec fn unhidden(v: StackView, n: Seq<char>) -> StackView {
    StackView { unapplied: v.unapplied.push(n), hidden: v.hidden.remove_value(n), ..v }
}

proof fn lemma_seq_insert_fresh(a: Seq<Seq<char>>, i: int, x: Seq<char>)
    requires
        a.no_duplicates(),
        !a.contains(x),
        0 <= i <= a.len(),
    ensures
        a.insert(i, x).no_duplicates(),
        forall|y: Seq<char>| #[trigger] a.insert(i, x).contains(y) <==> a.contains(y) || y == x,
{
    let a2 = a.insert(i, x);
    assert forall|p: int, q: int| 0 <= p < a2.len() && 0 <= q < a2.len() && p != q implies a2[p]
        != a2[q] by {
        let op = if p < i { p } else { p - 1 };
        let oq = if q < i { q } else { q - 1 };
        if p == i {
            assert(a.contains(a[oq]));
        } else if q == i {
            assert(a.contains(a[op]));
        } else {
            assert(a2[p] == a[op] && a2[q] == a[oq]);
        }
    }
    assert forall|y: Seq<char>| #[trigger] a2.contains(y) <==> a.contains(y) || y == x by {
        if a2.contains(y) && y != x {
            let p = choose|p: int| 0 <= p < a2.len() && a2[p] == y;
            let op = if p < i { p } else { p - 1 };
            assert(a[op] == y);
        }
        if a.contains(y) {
            let p = choose|p: int| 0 <= p < a.len() && a[p] == y;
            let np = if p < i { p } else { p + 1 };
            assert(a2[np] == y);
        }
        if y == x {
            assert(a2[i] == x);
        }
    }
}

proof fn lemma_move_invariants(v: StackView, v2: StackView, k: int, i: int, n: Seq<char>)
    requires
        v.invariants(),
        0 <= k < v.all().len(),
        v.all()[k] == n,
        0 <= i <= v.all().len() - 1,
        v2.all() == v.all().remove(k).insert(i, n),
        v2.applied == v.applied,
        v2.patches == v.patches,
        v2.head == v.head,
    ensures
        v2.invariants(),
{
    lemma_seq_remove(v.all(), k);
    lemma_seq_insert_fresh(v.all().remove(k), i, n);
    assert forall|x: Seq<char>| #[trigger] v2.patches.contains_key(x) <==> v2.all().contains(x) by {
        assert(v2.all().contains(x) <==> v.all().remove(k).contains(x) || x == n);
    }
    assert forall|j: int| 0 <= j < v2.applied.len() implies #[trigger] v2.patches[v2.applied[j]].parent
        == v2.base_of(j) by {
        assert(v.patches[v.applied[j]].parent == v.base_of(j));
    }
}


/// The model after the top patch is realized by `d` instead.
pub open spec fn refreshed(v: StackView, d: PatchDescriptor) -> StackView {
    StackView { patches: v.patches.insert(v.applied.last(), d), ..v }
}

proof fn lemma_refresh_invariants(v: StackView, d: PatchDescriptor)
    requires
        v.invariants(),
        v.applied.len() > 0,
        d.parent == v.base_of(v.applied.len() - 1),
    ensures
        refreshed(v, d).invariants(),
{
    let v2 = refreshed(v, d);
    let last = v.applied.len() - 1;
    lemma_all_index(v, last);
    assert forall|x: Seq<char>| #[trigger] v2.patches.contains_key(x) <==> v2.all().contains(x) by {
        if x == v.applied.last() {
            assert(v.patches.contains_key(x));
        }
    }
    assert forall|i: int| 0 <= i < v2.applied.len() implies #[trigger] v2.patches[v2.applied[i]].parent
        == v2.base_of(i) by {
        assert(v.patches[v.applied[i]].parent == v.base_of(i));
        if i < last {
            assert(v.all()[i] == v.applied[i]);
            assert(v.all()[last] == v.applied[last]);
        }
        if i > 0 {
            assert(v.all()[i - 1] == v.applied[i - 1]);
            assert(v.all()[last] == v.applied[last]);
        }
    }
}


/// The model after the unapplied patches are put in the order `order`.
pub open spec fn reordered(v: StackView, order: Seq<Seq<char>>) -> StackView {
    StackView { unapplied: order, ..v }
}

/// `a` and `b` hold the same names, each once.
pub open spec fn same_names(a: Seq<Seq<char>>, b: Seq<Seq<char>>) -> bool {
    &&& a.no_duplicates()
    &&& b.no_duplicates()
    &&& forall|x: Seq<char>| #[trigger] a.contains(x) <==> b.contains(x)
}

proof fn lemma_concat3(a: Seq<Seq<char>>, b: Seq<Seq<char>>, c: Seq<Seq<char>>)
    ensures
        forall|x: Seq<char>| #[trigger] (a + b + c).contains(x) <==> a.contains(x) || b.contains(x) || c.contains(x),
        (a + b + c).no_duplicates() <==> a.no_duplicates() && b.no_duplicates() && c.no_duplicates()
            && (forall|x: Seq<char>| a.contains(x) ==> !b.contains(x) && !c.contains(x))
            && (forall|x: Seq<char>| b.contains(x) ==> !c.contains(x)),
{
    let s = a + b + c;
    let la = a.len() as int;
    let lb = b.len() as int;
    assert forall|i: int| 0 <= i < a.len() implies s[i] == a[i] by {}
    assert forall|i: int| 0 <= i < b.len() implies s[la + i] == b[i] by {}
    assert forall|i: int| 0 <= i < c.len() implies s[la + lb + i] == c[i] by {}
    assert forall|x: Seq<char>| #[trigger] s.contains(x) <==> a.contains(x) || b.contains(x) || c.contains(x) by {
        if s.contains(x) {
            let i = choose|i: int| 0 <= i < s.len() && s[i] == x;
            if i < la {
                assert(a[i] == x);
            } else if i < la + lb {
                assert(b[i - la] == x);
            } else {
                assert(c[i - la - lb] == x);
            }
        }
        if a.contains(x) {
            let i = choose|i: int| 0 <= i < a.len() && a[i] == x;
            assert(s[i] == x);
        }
        if b.contains(x) {
            let i = choose|i: int| 0 <= i < b.len() && b[i] == x;
            assert(s[la + i] == x);
        }
        if c.contains(x) {
            let i = choose|i: int| 0 <= i < c.len() && c[i] == x;
            assert(s[la + lb + i] == x);
        }
    }
    if a.no_duplicates() && b.no_duplicates() && c.no_duplicates()
        && (forall|x: Seq<char>| a.contains(x) ==> !b.contains(x) && !c.contains(x))
        && (forall|x: Seq<char>| b.contains(x) ==> !c.contains(x)) {
        assert forall|i: int, j: int| 0 <= i < s.len() && 0 <= j < s.len() && i != j implies s[i] != s[j] by {
            if i < la {
                assert(a.contains(s[i]));
            } else if i < la + lb {
                assert(b.contains(s[i]));
            } else {
                assert(c.contains(s[i]));
            }
            if j < la {
                assert(a.contains(s[j]));
            } else if j < la + lb {
                assert(b.contains(s[j]));
            } else {
                assert(c.contains(s[j]));
            }
            if i < la && j < la {
                assert(a[i] == s[i] && a[j] == s[j]);
            } else if la <= i < la + lb && la <= j < la + lb {
                assert(b[i - la] == s[i] && b[j - la] == s[j]);
            } else if i >= la + lb && j >= la + lb {
                assert(c[i - la - lb] == s[i] && c[j - la - lb] == s[j]);
            }
        }
    }
    if s.no_duplicates() {
        assert forall|i: int, j: int| 0 <= i < a.len() && 0 <= j < a.len() && i != j implies a[i] != a[j] by {
            assert(s[i] == a[i] && s[j] == a[j]);
        }
        assert forall|i: int, j: int| 0 <= i < b.len() && 0 <= j < b.len() && i != j implies b[i] != b[j] by {
            assert(s[la + i] == b[i] && s[la + j] == b[j]);
        }
        assert forall|i: int, j: int| 0 <= i < c.len() && 0 <= j < c.len() && i != j implies c[i] != c[j] by {
            assert(s[la + lb + i] == c[i] && s[la + lb + j] == c[j]);
        }
        assert forall|x: Seq<char>| a.contains(x) implies !b.contains(x) && !c.contains(x) by {
            let i = choose|i: int| 0 <= i < a.len() && a[i] == x;
            if b.contains(x) {
                let j = choose|j: int| 0 <= j < b.len() && b[j] == x;
                assert(s[i] == s[la + j]);
            }
            if c.contains(x) {
                let j = choose|j: int| 0 <= j < c.len() && c[j] == x;
                assert(s[i] == s[la + lb + j]);
            }
        }
        assert forall|x: Seq<char>| b.contains(x) implies !c.contains(x) by {
            let i = choose|i: int| 0 <= i < b.len() && b[i] == x;
            if c.contains(x) {
                let j = choose|j: int| 0 <= j < c.len() && c[j] == x;
                assert(s[la + i] == s[la + lb + j]);
            }
        }
    }
}

proof fn lemma_reorder_invariants(v: StackView, order: Seq<Seq<char>>)
    requires
        v.invariants(),
        same_names(order, v.unapplied),
    ensures
        reordered(v, order).invariants(),
{
    let v2 = reordered(v, order);
    lemma_concat3(v.applied, v.unapplied, v.hidden);
    lemma_concat3(v.applied, order, v.hidden);
    assert(v2.all() == v.applied + order + v.hidden);
    assert forall|x: Seq<char>| #[trigger] v2.patches.contains_key(x) <==> v2.all().contains(x) by {
        assert(v.all().contains(x) <==> v2.all().contains(x));
    }
    assert forall|i: int| 0 <= i < v2.applied.len() implies #[trigger] v2.patches[v2.applied[i]].parent
        == v2.base_of(i) by {
        assert(v.patches[v.applied[i]].parent == v.base_of(i));
    }
}

/// Whether every name of `a` occurs in `b`.
fn all_within(a: &Vec<PatchName>, b: &Vec<PatchName>) -> (r: bool)
    ensures
        r == forall|x: Seq<char>| names_of(a@).contains(x) ==> names_of(b@).contains(x),
{
    let mut i: usize = 0;
    while i < a.len()
        invariant
            0 <= i <= a@.len(),
            forall|j: int| 0 <= j < i ==> names_of(b@).contains(#[trigger] names_of(a@)[j]),
        decreases a@.len() - i,
    {
        match position(b, &a[i]) {
            Some(p) => {
                proof {
                    assert(names_of(b@)[p as int] == a@[i as int]@);
                    assert(names_of(a@)[i as int] == a@[i as int]@);
                }
            },
            None => {
                proof {
                    assert(names_of(a@)[i as int] == a@[i as int]@);
                    assert(names_of(a@).contains(a@[i as int]@));
                }
                return false;
            },
        }
        i = i + 1;
    }
    proof {
        assert forall|x: Seq<char>| names_of(a@).contains(x) implies names_of(b@).contains(x) by {
            let j = choose|j: int| 0 <= j < names_of(a@).len() && names_of(a@)[j] == x;
        }
    }
    true
}

/// A patch series: the commit it is built upon, the previous log commit,
/// three ordered sequences of patch names and the table of their commits.
#[derive(Debug)]
pub struct StackState {
    prev: Option<ObjectId>,
    head: ObjectId,
    applied: Vec<PatchName>,
    unapplied: Vec<PatchName>,
    hidden: Vec<PatchName>,
    patches: Vec<PatchEntry>,
}

impl View for StackState {
    type V = StackView;

    closed spec fn view(&self) -> StackView {
        StackView {
            prev: self.prev,
            head: self.head,
            applied: names_of(self.applied@),
            unapplied: names_of(self.unapplied@),
            hidden: names_of(self.hidden@),
            patches: table_of(self.patches@),
        }
    }
}

impl StackState {
    /// The state is well formed: its model obeys the stack invariants.
    pub closed spec fn wf(&self) -> bool {
        &&& keys_unique(self.patches@)
        &&& self@.invariants()
    }

    /// An empty series built upon `head`, with no previous log commit.
    pub fn new(head: ObjectId) -> (r: StackState)
        ensures
            r.wf(),
            r@.prev is None,
            r@.head == head,
            r@.applied.len() == 0,
            r@.unapplied.len() == 0,
            r@.hidden.len() == 0,
            r@.patches.dom().len() == 0,
    {
        let r = StackState {
            prev: None,
            head,
            applied: Vec::new(),
            unapplied: Vec::new(),
            hidden: Vec::new(),
            patches: Vec::new(),
        };
        assert(r@.all() =~= Seq::<Seq<char>>::empty());
        assert(r@.patches =~= Map::<Seq<char>, PatchDescriptor>::empty());
        r
    }

    /// The names of every patch: applied, then unapplied, then hidden.
    pub fn all_patches(&self) -> (r: Vec<PatchName>)
        ensures
            names_of(r@) == self@.all(),
    {
        let mut r: Vec<PatchName> = Vec::new();
        let mut i: usize = 0;
        while i < self.applied.len()
            invariant
                0 <= i <= self.applied@.len(),
                names_of(r@) =~= names_of(self.applied@).subrange(0, i as int),
            decreases self.applied@.len() - i,
        {
            let x = self.applied[i].duplicate();
            proof {
                lemma_names_push(r@, x);
            }
            r.push(x);
            i = i + 1;
        }
        i = 0;
        while i < self.unapplied.len()
            invariant
                0 <= i <= self.unapplied@.len(),
                names_of(r@) =~= names_of(self.applied@) + names_of(self.unapplied@).subrange(
                    0,
                    i as int,
                ),
            decreases self.unapplied@.len() - i,
        {
            let x = self.unapplied[i].duplicate();
            proof {
                lemma_names_push(r@, x);
            }
            r.push(x);
            i = i + 1;
        }
        i = 0;
        while i < self.hidden.len()
            invariant
                0 <= i <= self.hidden@.len(),
                names_of(r@) =~= names_of(self.applied@) + names_of(self.unapplied@)
                    + names_of(self.hidden@).subrange(0, i as int),
            decreases self.hidden@.len() - i,
        {
            let x = self.hidden[i].duplicate();
            proof {
                lemma_names_push(r@, x);
            }
            r.push(x);
            i = i + 1;
        }
        r
    }

    /// The same series built upon `new_head`, following the log commit
    /// `prev_state`.
    pub fn advance_head(self, new_head: ObjectId, prev_state: ObjectId) -> (r: StackState)
        ensures
            r@ == (StackView { prev: Some(prev_state), head: new_head, ..self@ }),
            self.wf() && (self@.applied.len() == 0 || new_head == self@.head) ==> r.wf(),
    {
        StackState { prev: Some(prev_state), head: new_head, ..self }
    }

    /// Whether `name` names a patch of the series.
    pub fn has_patch(&self, name: &PatchName) -> (r: bool)
        requires
            self.wf(),
        ensures
            r == self@.has(name@),
    {
        match find_entry(&self.patches, name) {
            Some(k) => {
                proof {
                    lemma_table_at(self.patches@, k as int);
                }
                assert(self@.patches.contains_key(name@));
                true
            },
            None => {
                assert(!self@.patches.contains_key(name@));
                false
            },
        }
    }

    /// Pushes patch `name`, realized by `desc`, on top of the applied
    /// sequence. Fails with `NameConflict` if the name is taken, and with
    /// `ParentMismatch` if the commit's parent is not the current top.
    pub fn push(&mut self, name: PatchName, desc: PatchDescriptor) -> (r: Result<(), Error>)
        requires
            old(self).wf(),
        ensures
            final(self).wf(),
            old(self)@.has(name@) ==> r == Err::<(), Error>(Error::NameConflict),
            !old(self)@.has(name@) && desc.parent != old(self)@.top() ==> r == Err::<(), Error>(
                Error::ParentMismatch,
            ),
            !old(self)@.has(name@) && desc.parent == old(self)@.top() ==> r is Ok,
            r is Ok ==> final(self)@ == pushed(old(self)@, name@, desc),
            r is Err ==> final(self)@ == old(self)@,
    {
        if self.has_patch(&name) {
            return Err(Error::NameConflict);
        }
        let top = self.top();
        if !desc.parent.same(&top) {
            return Err(Error::ParentMismatch);
        }
        proof {
            assert(!self@.patches.contains_key(name@));
            lemma_push_invariants(self@, name@, desc);
            lemma_table_push(self.patches@, PatchEntry { name: name, desc });
            lemma_names_push(self.applied@, name);
        }
        let entry = PatchEntry { name: name.duplicate(), desc };
        proof {
            lemma_table_push(self.patches@, entry);
        }
        self.patches.push(entry);
        self.applied.push(name);
        Ok(())
    }

    /// Moves the last applied patch to the front of the unapplied sequence.
    /// Fails with `NothingApplied` when no patch is applied.
    pub fn pop(&mut self) -> (r: Result<(), Error>)
        requires
            old(self).wf(),
        ensures
            final(self).wf(),
            r is Ok <==> old(self)@.applied.len() > 0,
            r is Ok ==> final(self)@ == popped(old(self)@),
            r is Err ==> r == Err::<(), Error>(Error::NothingApplied) && final(self)@ == old(self)@,
    {
        match self.applied.pop() {
            None => Err(Error::NothingApplied),
            Some(name) => {
                proof {
                    lemma_pop_invariants(old(self)@);
                }
                self.unapplied.insert(0, name);
                proof {
                    assert(self@.applied =~= popped(old(self)@).applied);
                    assert(self@.unapplied =~= popped(old(self)@).unapplied);
                    assert(self@ == popped(old(self)@));
                }
                Ok(())
            },
        }
    }

    /// Renames patch `from` to `to`. Fails with `NameConflict` if `to` is
    /// already taken, and with `UnknownPatch` if `from` is not in the series.
    pub fn rename(&mut self, from: &PatchName, to: PatchName) -> (r: Result<(), Error>)
        requires
            old(self).wf(),
        ensures
            final(self).wf(),
            old(self)@.has(to@) ==> r == Err::<(), Error>(Error::NameConflict),
            !old(self)@.has(to@) && !old(self)@.has(from@) ==> r == Err::<(), Error>(
                Error::UnknownPatch,
            ),
            !old(self)@.has(to@) && old(self)@.has(from@) ==> r is Ok,
            r is Ok ==> final(self)@ == renamed(old(self)@, from@, to@),
            r is Err ==> final(self)@ == old(self)@,
    {
        if self.has_patch(&to) {
            return Err(Error::NameConflict);
        }
        let k = match find_entry(&self.patches, from) {
            Some(k) => k,
            None => {
                proof {
                    assert(!self@.patches.contains_key(from@));
                }
                return Err(Error::UnknownPatch);
            },
        };
        proof {
            lemma_table_at(self.patches@, k as int);
            assert(self@.patches.contains_key(from@));
            assert(!self@.patches.contains_key(to@));
            lemma_rename_invariants(self@, from@, to@);
            lemma_parts_unique(self@);
        }
        let desc = self.patches[k].desc;
        self.patches.remove(k);
        proof {
            lemma_table_remove(old(self).patches@, k as int);
        }
        let entry = PatchEntry { name: to.duplicate(), desc };
        proof {
            lemma_table_push(self.patches@, entry);
        }
        self.patches.push(entry);
        rename_within(&mut self.applied, from, &to);
        rename_within(&mut self.unapplied, from, &to);
        rename_within(&mut self.hidden, from, &to);
        proof {
            assert(self@.patches =~= renamed(old(self)@, from@, to@).patches);
            assert(self@ == renamed(old(self)@, from@, to@));
        }
        Ok(())
    }

    /// Deletes patch `name` from whichever sequence holds it and from the
    /// patch table. Fails with `UnknownPatch` if it is not in the series and
    /// with `PatchApplied` if it is applied below the top.
    pub fn delete(&mut self, name: &PatchName) -> (r: Result<(), Error>)
        requires
            old(self).wf(),
        ensures
            final(self).wf(),
            !old(self)@.has(name@) ==> r == Err::<(), Error>(Error::UnknownPatch),
            old(self)@.has(name@) && !deletable(old(self)@, name@) ==> r == Err::<(), Error>(
                Error::PatchApplied,
            ),
            old(self)@.has(name@) && deletable(old(self)@, name@) ==> r is Ok,
            r is Ok ==> final(self)@ == deleted(old(self)@, name@),
            r is Err ==> final(self)@ == old(self)@,
    {
        let k = match find_entry(&self.patches, name) {
            Some(k) => k,
            None => {
                proof {
                    assert(!self@.patches.contains_key(name@));
                    lemma_parts_unique(self@);
                }
                return Err(Error::UnknownPatch);
            },
        };
        proof {
            lemma_table_at(self.patches@, k as int);
            assert(self@.patches.contains_key(name@));
            lemma_parts_unique(self@);
        }
        let on_top = match position(&self.applied, name) {
            Some(j) => {
                proof {
                    assert(self@.applied[j as int] == name@);
                    assert(self@.applied.contains(name@));
                    if j + 1 < self.applied.len() {
                        lemma_all_index(self@, j as int);
                        lemma_all_index(self@, self.applied.len() - 1);
                        assert(self@.applied.last() != name@);
                    }
                }
                if j + 1 != self.applied.len() {
                    return Err(Error::PatchApplied);
                }
                true
            },
            None => false,
        };
        proof {
            lemma_delete_invariants(self@, name@);
        }
        self.patches.remove(k);
        proof {
            lemma_table_remove(old(self).patches@, k as int);
        }
        if on_top {
            self.applied.pop();
            proof {
                assert(self@.applied =~= deleted(old(self)@, name@).applied);
            }
        } else {
            proof {
                assert(!self@.applied.contains(name@));
            }
        }
        remove_within(&mut self.unapplied, name);
        remove_within(&mut self.hidden, name);
        proof {
            assert(self@.patches =~= deleted(old(self)@, name@).patches);
            assert(self@ == deleted(old(self)@, name@));
        }
        Ok(())
    }

    /// The commit the series is built upon.
    pub fn head(&self) -> (r: ObjectId)
        ensures
            r == self@.head,
    {
        self.head
    }

    /// The previous log commit, if any.
    pub fn prev(&self) -> (r: Option<ObjectId>)
        ensures
            r == self@.prev,
    {
        self.prev
    }

    /// The applied patch names, oldest first.
    pub fn applied(&self) -> (r: &Vec<PatchName>)
        ensures
            names_of(r@) == self@.applied,
    {
        &self.applied
    }

    /// The unapplied patch names.
    pub fn unapplied(&self) -> (r: &Vec<PatchName>)
        ensures
            names_of(r@) == self@.unapplied,
    {
        &self.unapplied
    }

    /// The hidden patch names.
    pub fn hidden(&self) -> (r: &Vec<PatchName>)
        ensures
            names_of(r@) == self@.hidden,
    {
        &self.hidden
    }

    /// The descriptor of patch `name`, if it is in the series.
    pub fn patch(&self, name: &PatchName) -> (r: Option<PatchDescriptor>)
        requires
            self.wf(),
        ensures
            r is Some <==> self@.has(name@),
            r is Some ==> r->Some_0 == self@.patches[name@],
    {
        match find_entry(&self.patches, name) {
            Some(k) => {
                proof {
                    lemma_table_at(self.patches@, k as int);
                    assert(self@.patches.contains_key(name@));
                }
                Some(self.patches[k].desc)
            },
            None => {
                proof {
                    assert(!self@.patches.contains_key(name@));
                }
                None
            },
        }
    }

    /// Every name listed in one of the sequences names a patch of the series.
    pub proof fn lemma_listed_have(&self)
        requires
            self.wf(),
        ensures
            forall|n: Seq<char>| self@.unapplied.contains(n) ==> #[trigger] self@.has(n),
            forall|n: Seq<char>| self@.hidden.contains(n) ==> #[trigger] self@.has(n),
            forall|n: Seq<char>| self@.applied.contains(n) ==> #[trigger] self@.has(n),
    {
        lemma_parts_unique(self@);
    }

    /// The parts of the state, as `from_parts` takes them.
    pub closed spec fn parts(&self) -> (Option<ObjectId>, ObjectId, Seq<PatchName>, Seq<PatchName>, Seq<PatchName>, Seq<PatchEntry>) {
        (self.prev, self.head, self.applied@, self.unapplied@, self.hidden@, self.patches@)
    }

    /// Takes the state apart: previous log commit, head, the three
    /// sequences and the patch entries.
    pub fn into_parts(self) -> (r: (
        Option<ObjectId>,
        ObjectId,
        Vec<PatchName>,
        Vec<PatchName>,
        Vec<PatchName>,
        Vec<PatchEntry>,
    ))
        ensures
            (r.0, r.1, r.2@, r.3@, r.4@, r.5@) == self.parts(),
            parts_view(r.0, r.1, r.2@, r.3@, r.4@, r.5@) == self@,
    {
        (self.prev, self.head, self.applied, self.unapplied, self.hidden, self.patches)
    }

    /// Builds a state from its stored parts, checking the format version and
    /// the stack invariants. Fails with `StackMetadataMalformed` otherwise.
    pub fn from_parts(
        version: u64,
        prev: Option<ObjectId>,
        head: ObjectId,
        applied: Vec<PatchName>,
        unapplied: Vec<PatchName>,
        hidden: Vec<PatchName>,
        patches: Vec<PatchEntry>,
    ) -> (r: Result<StackState, Error>)
        ensures
            r is Ok <==> version == 5 && keys_unique(patches@) && parts_view(
                prev,
                head,
                applied@,
                unapplied@,
                hidden@,
                patches@,
            ).invariants(),
            r is Ok ==> r->Ok_0.wf() && r->Ok_0@ == parts_view(
                prev,
                head,
                applied@,
                unapplied@,
                hidden@,
                patches@,
            ),
            r is Err ==> r == Err::<StackState, Error>(Error::StackMetadataMalformed),
    {
        if version != STACK_FORMAT_VERSION {
            return Err(Error::StackMetadataMalformed);
        }
        if !entry_names_unique(&patches) {
            return Err(Error::StackMetadataMalformed);
        }
        let ghost pv = parts_view(prev, head, applied@, unapplied@, hidden@, patches@);
        let ghost pe = patches@;
        let cand = StackState { prev, head, applied, unapplied, hidden, patches };
        let ghost v = cand@;
        assert(v == pv);
        let all = cand.all_patches();
        if !no_duplicate_names(&all) {
            return Err(Error::StackMetadataMalformed);
        }
        let mut i: usize = 0;
        while i < all.len()
            invariant
                0 <= i <= all@.len(),
                names_of(all@) == v.all(),
                v == cand@,
                v == pv,
                cand.patches@ == pe,
                pe == patches@,
                pv == parts_view(prev, head, applied@, unapplied@, hidden@, patches@),
                version == 5,
                keys_unique(cand.patches@),
                forall|j: int| 0 <= j < i ==> v.patches.contains_key(#[trigger] v.all()[j]),
            decreases all@.len() - i,
        {
            proof {
                assert(names_of(all@)[i as int] == all@[i as int]@);
            }
            match find_entry(&cand.patches, &all[i]) {
                Some(k) => {
                    proof {
                        lemma_table_at(cand.patches@, k as int);
                    }
                },
                None => {
                    proof {
                        assert(v.all()[i as int] == all@[i as int]@);
                        assert(v.all().contains(all@[i as int]@));
                        assert(!v.patches.contains_key(all@[i as int]@));
                    }
                    return Err(Error::StackMetadataMalformed);
                },
            }
            i = i + 1;
        }
        let mut k: usize = 0;
        while k < cand.patches.len()
            invariant
                0 <= k <= cand.patches@.len(),
                names_of(all@) == v.all(),
                v == cand@,
                v == pv,
                cand.patches@ == pe,
                pe == patches@,
                pv == parts_view(prev, head, applied@, unapplied@, hidden@, patches@),
                version == 5,
                keys_unique(cand.patches@),
                forall|j: int| 0 <= j < k ==> v.all().contains(#[trigger] cand.patches@[j].name@),
            decreases cand.patches@.len() - k,
        {
            match position(&all, &cand.patches[k].name) {
                Some(p) => {
                    proof {
                        assert(names_of(all@)[p as int] == all@[p as int]@);
                    }
                },
                None => {
                    proof {
                        let nm = cand.patches@[k as int].name@;
                        assert(entry_with(cand.patches@, nm, k as int));
                        assert(v.patches.contains_key(nm));
                        assert(!v.all().contains(nm));
                    }
                    return Err(Error::StackMetadataMalformed);
                },
            }
            k = k + 1;
        }
        proof {
            assert forall|n: Seq<char>| #[trigger] v.patches.contains_key(n) <==> v.all().contains(n) by {
                if v.patches.contains_key(n) {
                    let j = choose|j: int| entry_with(cand.patches@, n, j);
                    assert(v.all().contains(cand.patches@[j].name@));
                }
                if v.all().contains(n) {
                    let j = choose|j: int| 0 <= j < v.all().len() && v.all()[j] == n;
                    assert(v.patches.contains_key(v.all()[j]));
                }
            }
        }
        let napplied = cand.applied.len();
        let mut i: usize = 0;
        while i < napplied
            invariant
                napplied == v.applied.len(),
                0 <= i <= napplied,
                v == cand@,
                v == pv,
                cand.patches@ == pe,
                pe == patches@,
                pv == parts_view(prev, head, applied@, unapplied@, hidden@, patches@),
                version == 5,
                keys_unique(cand.patches@),
                v.all().no_duplicates(),
                forall|n: Seq<char>| #[trigger] v.patches.contains_key(n) <==> v.all().contains(n),
                forall|j: int| 0 <= j < i ==> #[trigger] v.patches[v.applied[j]].parent == v.base_of(j),
            decreases napplied - i,
        {
            proof {
                lemma_all_index(v, i as int);
                assert(v.applied[i as int] == cand.applied@[i as int]@);
                if i > 0 {
                    lemma_all_index(v, i - 1);
                    assert(v.applied[i - 1] == cand.applied@[i - 1]@);
                }
            }
            let d = match find_entry(&cand.patches, &cand.applied[i]) {
                Some(k) => {
                    proof {
                        lemma_table_at(cand.patches@, k as int);
                    }
                    cand.patches[k].desc
                },
                None => {
                    proof {
                        assert(v.all().contains(v.applied[i as int]));
                        assert(v.patches.contains_key(v.applied[i as int]));
                        assert(v.applied[i as int] == cand.applied@[i as int]@);
                    }
                    return Err(Error::StackMetadataMalformed);
                },
            };
            let base = if i == 0 {
                cand.head
            } else {
                match find_entry(&cand.patches, &cand.applied[i - 1]) {
                    Some(k) => {
                        proof {
                            lemma_table_at(cand.patches@, k as int);
                        }
                        cand.patches[k].desc.commit
                    },
                    None => {
                        proof {
                            assert(v.all().contains(v.applied[i - 1]));
                            assert(v.patches.contains_key(v.applied[i - 1]));
                            assert(v.applied[i - 1] == cand.applied@[i - 1]@);
                        }
                        return Err(Error::StackMetadataMalformed);
                    },
                }
            };
            if !d.parent.same(&base) {
                proof {
                    assert(v.patches[v.applied[i as int]].parent != v.base_of(i as int));
                }
                return Err(Error::StackMetadataMalformed);
            }
            i = i + 1;
        }
        Ok(cand)
    }

    /// Taking a well-formed state apart and building it again from its
    /// parts, at the current format version, succeeds and gives back the
    /// same state.
    pub proof fn lemma_parts_round_trip(&self)
        requires
            self.wf(),
        ensures
            keys_unique(self.parts().5),
            parts_view(
                self.parts().0,
                self.parts().1,
                self.parts().2,
                self.parts().3,
                self.parts().4,
                self.parts().5,
            ).invariants(),
            parts_view(
                self.parts().0,
                self.parts().1,
                self.parts().2,
                self.parts().3,
                self.parts().4,
                self.parts().5,
            ) == self@,
    {
    }

    /// Moves the unapplied patch `name` to the end of the hidden sequence.
    /// Fails with `UnknownPatch` when `name` is not an unapplied patch.
    pub fn hide_patch(&mut self, name: &PatchName) -> (r: Result<(), Error>)
        requires
            old(self).wf(),
        ensures
            final(self).wf(),
            r is Ok <==> old(self)@.unapplied.contains(name@),
            r is Ok ==> final(self)@ == hidden_away(old(self)@, name@),
            r is Err ==> r == Err::<(), Error>(Error::UnknownPatch) && final(self)@ == old(self)@,
    {
        let j = match position(&self.unapplied, name) {
            Some(j) => j,
            None => return Err(Error::UnknownPatch),
        };
        proof {
            let v = self@;
            lemma_parts_unique(v);
            assert(v.unapplied[j as int] == name@);
            let k = v.applied.len() + j;
            assert(v.all()[k] == name@);
            lemma_remove_value_at(v.unapplied, j as int);
            let v2 = hidden_away(v, name@);
            assert(v2.all() =~= v.all().remove(k).insert(v.all().len() - 1, name@));
            lemma_move_invariants(v, v2, k, v.all().len() - 1, name@);
            lemma_names_remove(self.unapplied@, j as int);
        }
        let p = self.unapplied.remove(j);
        proof {
            lemma_names_push(self.hidden@, p);
        }
        self.hidden.push(p);
        proof {
            assert(self@ == hidden_away(old(self)@, name@));
        }
        Ok(())
    }

    /// Moves the hidden patch `name` to the end of the unapplied sequence.
    /// Fails with `UnknownPatch` when `name` is not a hidden patch.
    pub fn unhide_patch(&mut self, name: &PatchName) -> (r: Result<(), Error>)
        requires
            old(self).wf(),
        ensures
            final(self).wf(),
            r is Ok <==> old(self)@.hidden.contains(name@),
            r is Ok ==> final(self)@ == unhidden(old(self)@, name@),
            r is Err ==> r == Err::<(), Error>(Error::UnknownPatch) && final(self)@ == old(self)@,
    {
        let j = match position(&self.hidden, name) {
            Some(j) => j,
            None => return Err(Error::UnknownPatch),
        };
        proof {
            let v = self@;
            lemma_parts_unique(v);
            assert(v.hidden[j as int] == name@);
            let la = v.applied.len() as int;
            let lu = v.unapplied.len() as int;
            let k = la + lu + j;
            assert(v.all()[k] == name@);
            lemma_remove_value_at(v.hidden, j as int);
            let v2 = unhidden(v, name@);
            assert(v2.all() =~= v.all().remove(k).insert(la + lu, name@));
            lemma_move_invariants(v, v2, k, la + lu, name@);
            lemma_names_remove(self.hidden@, j as int);
        }
        let p = self.hidden.remove(j);
        proof {
            lemma_names_push(self.unapplied@, p);
        }
        self.unapplied.push(p);
        proof {
            assert(self@ == unhidden(old(self)@, name@));
        }
        Ok(())
    }

    /// Records that the top patch is now realized by `desc`. Fails with
    /// `NothingApplied` when no patch is applied, and with `ParentMismatch`
    /// when the new commit's parent is not the one the top patch builds on.
    pub fn refresh_top(&mut self, desc: PatchDescriptor) -> (r: Result<(), Error>)
        requires
            old(self).wf(),
        ensures
            final(self).wf(),
            old(self)@.applied.len() == 0 ==> r == Err::<(), Error>(Error::NothingApplied),
            old(self)@.applied.len() > 0 && desc.parent != old(self)@.base_of(
                old(self)@.applied.len() - 1,
            ) ==> r == Err::<(), Error>(Error::ParentMismatch),
            old(self)@.applied.len() > 0 && desc.parent == old(self)@.base_of(
                old(self)@.applied.len() - 1,
            ) ==> r is Ok,
            r is Ok ==> final(self)@ == refreshed(old(self)@, desc),
            r is Err ==> final(self)@ == old(self)@,
    {
        let n = self.applied.len();
        if n == 0 {
            return Err(Error::NothingApplied);
        }
        let base = if n == 1 {
            self.head
        } else {
            proof {
                lemma_all_index(self@, n - 2);
            }
            match self.patch(&self.applied[n - 2]) {
                Some(d) => d.commit,
                None => self.head,
            }
        };
        if !desc.parent.same(&base) {
            return Err(Error::ParentMismatch);
        }
        proof {
            lemma_all_index(self@, n - 1);
            assert(self@.applied[n - 1] == self.applied@[n - 1]@);
            assert(self@.patches.contains_key(self.applied@[n - 1]@));
        }
        let k = match find_entry(&self.patches, &self.applied[n - 1]) {
            Some(k) => k,
            None => return Err(Error::NothingApplied),
        };
        proof {
            lemma_refresh_invariants(self@, desc);
            lemma_table_at(self.patches@, k as int);
        }
        let entry = self.patches.remove(k);
        proof {
            lemma_table_remove(old(self).patches@, k as int);
        }
        let fresh = PatchEntry { name: entry.name, desc };
        proof {
            lemma_table_push(self.patches@, fresh);
        }
        self.patches.push(fresh);
        proof {
            assert(self@.patches =~= refreshed(old(self)@, desc).patches);
            assert(self@ == refreshed(old(self)@, desc));
        }
        Ok(())
    }

    /// Puts the unapplied patches in the order `order`. Fails with
    /// `InvalidOrder` unless `order` names each unapplied patch exactly once
    /// and nothing else.
    pub fn reorder_unapplied(&mut self, order: Vec<PatchName>) -> (r: Result<(), Error>)
        requires
            old(self).wf(),
        ensures
            final(self).wf(),
            r is Ok <==> same_names(names_of(order@), old(self)@.unapplied),
            r is Ok ==> final(self)@ == reordered(old(self)@, names_of(order@)),
            r is Err ==> r == Err::<(), Error>(Error::InvalidOrder) && final(self)@ == old(self)@,
    {
        proof {
            lemma_parts_unique(self@);
        }
        if !no_duplicate_names(&order) || !all_within(&order, &self.unapplied) || !all_within(
            &self.unapplied,
            &order,
        ) {
            return Err(Error::InvalidOrder);
        }
        proof {
            lemma_reorder_invariants(self@, names_of(order@));
        }
        self.unapplied = order;
        Ok(())
    }

    /// The applied commits form a parent chain from the top down to `head`:
    /// the top is the last applied commit, each applied commit's recorded
    /// parent is the commit applied before it, and the first one's parent is
    /// `head`. So every applied commit, and `head`, is an ancestor of the top.
    pub proof fn lemma_applied_chain(&self)
        requires
            self.wf(),
        ensures
            self@.applied.len() > 0 ==> self@.top() == self@.patches[self@.applied.last()].commit,
            self@.applied.len() > 0 ==> self@.patches[self@.applied[0]].parent == self@.head,
            forall|i: int|
                0 < i < self@.applied.len() ==> #[trigger] self@.patches[self@.applied[i]].parent
                    == self@.patches[self@.applied[i - 1]].commit,
    {
        let v = self@;
        if v.applied.len() > 0 {
            assert(v.patches[v.applied[0]].parent == v.base_of(0));
        }
        assert forall|i: int| 0 < i < v.applied.len() implies #[trigger] v.patches[v.applied[i]].parent
            == v.patches[v.applied[i - 1]].commit by {
            assert(v.patches[v.applied[i]].parent == v.base_of(i));
        }
    }

    /// The commit of the last applied patch, or `head` when none is applied.
    pub fn top(&self) -> (r: ObjectId)
        requires
            self.wf(),
        ensures
            r == self@.top(),
    {
        let n = self.applied.len();
        if n == 0 {
            self.head
        } else {
            let name = &self.applied[n - 1];
            proof {
                assert(self@.applied.last() == name@);
                assert(self@.all()[n - 1] == name@);
                assert(self@.patches.contains_key(name@));
            }
            match find_entry(&self.patches, name) {
                Some(k) => {
                    proof {
                        lemma_table_at(self.patches@, k as int);
                    }
                    self.patches[k].desc.commit
                },
                None => self.head,
            }
        }
    }
}

} // verus!
