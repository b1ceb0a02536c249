use vstd::prelude::*;

use crate::oid::ObjectId;

verus! {

/// The most parents any commit written for the stack log may have.
pub const MAX_PARENTS: usize = 16;

/// A grouping commit: its id and its parents.
pub type Group = (ObjectId, Seq<ObjectId>);

/// `x` is reachable from a commit whose parents are `list`, where `groups`
/// are grouping commits, oldest first, each of which may be reached through
/// the list or through a later one.
pub open spec fn reaches(list: Seq<ObjectId>, groups: Seq<Group>, x: ObjectId) -> bool
    decreases groups.len(),
{
    if groups.len() == 0 {
        list.contains(x)
    } else {
        let rest = groups.drop_first();
        reaches(list, rest, x) || (groups[0].1.contains(x) && reaches(list, rest, groups[0].0))
    }
}

/// Adding a group whose parents were taken from the list, and whose id is in
/// the new list, keeps everything reachable.
proof fn lemma_reaches_grow(
    list: Seq<ObjectId>,
    list2: Seq<ObjectId>,
    groups: Seq<Group>,
    g: Group,
    x: ObjectId,
)
    requires
        reaches(list, groups, x),
        forall|y: ObjectId| list.contains(y) ==> list2.contains(y) || g.1.contains(y),
        list2.contains(g.0),
    ensures
        reaches(list2, groups.push(g), x),
    decreases groups.len(),
{
    let gs2 = groups.push(g);
    if groups.len() == 0 {
        assert(gs2.drop_first() =~= Seq::<Group>::empty());
        assert(gs2[0] == g);
        assert(list.contains(x));
        assert(reaches(list2, Seq::<Group>::empty(), g.0));
        if list2.contains(x) {
            assert(reaches(list2, Seq::<Group>::empty(), x));
        }
    } else {
        let rest = groups.drop_first();
        assert(gs2.drop_first() =~= rest.push(g));
        assert(gs2[0] == groups[0]);
        if reaches(list, rest, x) {
            lemma_reaches_grow(list, list2, rest, g, x);
        } else {
            assert(groups[0].1.contains(x) && reaches(list, rest, groups[0].0));
            lemma_reaches_grow(list, list2, rest, g, groups[0].0);
        }
    }
}

/// `x` is the id of one of the grouping commits `groups`.
pub open spec fn is_group_id(groups: Seq<Group>, x: ObjectId) -> bool {
    exists|k: int| 0 <= k < groups.len() && (#[trigger] groups[k]).0 == x
}

/// Every id among `list` and the parents of `groups` is one of `initial` or
/// a grouping commit: the reduction brings in no other id.
pub open spec fn adds_nothing(initial: Seq<ObjectId>, list: Seq<ObjectId>, groups: Seq<Group>) -> bool {
    &&& forall|x: ObjectId| #[trigger] list.contains(x) ==> initial.contains(x) || is_group_id(groups, x)
    &&& forall|k: int, x: ObjectId|
        0 <= k < groups.len() && #[trigger] groups[k].1.contains(x) ==> initial.contains(x)
            || is_group_id(groups, x)
}

/// The reduction of a log commit's pinning parents to at most
/// `MAX_PARENTS`, by moving them, `MAX_PARENTS` at a time from the end,
/// into grouping commits.
pub struct FanIn {
    parents: Vec<ObjectId>,
    initial: Ghost<Seq<ObjectId>>,
    groups: Ghost<Seq<Group>>,
}

impl FanIn {
    /// The parents still to be placed on the log commit.
    pub closed spec fn pending(&self) -> Seq<ObjectId> {
        self.parents@
    }

    /// The parents the reduction started from.
    pub closed spec fn initial(&self) -> Seq<ObjectId> {
        self.initial@
    }

    /// The grouping commits recorded so far, oldest first.
    pub closed spec fn groups(&self) -> Seq<Group> {
        self.groups@
    }

    /// Every grouping commit has `MAX_PARENTS` parents, every initial
    /// parent stays reachable, and no other id comes in.
    pub closed spec fn wf(&self) -> bool {
        &&& adds_nothing(self.initial@, self.parents@, self.groups@)
        &&& forall|k: int|
            0 <= k < self.groups@.len() ==> (#[trigger] self.groups@[k]).1.len() == MAX_PARENTS
        &&& forall|x: ObjectId|
            self.initial@.contains(x) ==> #[trigger] reaches(self.parents@, self.groups@, x)
    }

    /// Starts the reduction of `parents`.
    pub fn new(parents: Vec<ObjectId>) -> (r: FanIn)
        ensures
            r.wf(),
            r.pending() == parents@,
            r.initial() == parents@,
            r.groups().len() == 0,
    {
        let r = FanIn { parents, initial: Ghost(parents@), groups: Ghost(Seq::empty()) };
        assert(adds_nothing(r.initial@, r.parents@, r.groups@));
        assert forall|x: ObjectId| r.initial@.contains(x) implies #[trigger] reaches(
            r.parents@,
            r.groups@,
            x,
        ) by {}
        r
    }

    /// The parents of the next grouping commit to write, if one is needed:
    /// the last `MAX_PARENTS` pending ones, while there are too many to leave
    /// room for one more parent.
    pub fn next_group(&self) -> (r: Option<Vec<ObjectId>>)
        ensures
            r is Some <==> self.pending().len() >= MAX_PARENTS,
            r is Some ==> r->Some_0@ == self.pending().subrange(
                self.pending().len() - MAX_PARENTS,
                self.pending().len() as int,
            ),
    {
        let n = self.parents.len();
        if n < MAX_PARENTS {
            return None;
        }
        let mut g: Vec<ObjectId> = Vec::new();
        let mut i: usize = n - MAX_PARENTS;
        while i < n
            invariant
                n == self.parents@.len(),
                n >= MAX_PARENTS,
                n - MAX_PARENTS <= i <= n,
                g@ =~= self.parents@.subrange(n - MAX_PARENTS, i as int),
            decreases n - i,
        {
            g.push(self.parents[i]);
            proof {
                assert(self.parents@.subrange(n - MAX_PARENTS, i + 1) =~= self.parents@.subrange(
                    n - MAX_PARENTS,
                    i as int,
                ).push(self.parents@[i as int]));
            }
            i = i + 1;
        }
        Some(g)
    }

    /// Records that the grouping commit `group_commit` was written with the
    /// parents given by `next_group`: they leave the pending list and the
    /// grouping commit takes their place.
    pub fn record_group(&mut self, group_commit: ObjectId)
        requires
            old(self).wf(),
            old(self).pending().len() >= MAX_PARENTS,
        ensures
            final(self).wf(),
            final(self).initial() == old(self).initial(),
            final(self).pending() == old(self).pending().subrange(
                0,
                old(self).pending().len() - MAX_PARENTS,
            ).push(group_commit),
            final(self).groups() == old(self).groups().push(
                (
                    group_commit,
                    old(self).pending().subrange(
                        old(self).pending().len() - MAX_PARENTS,
                        old(self).pending().len() as int,
                    ),
                ),
            ),
    {
        let n = self.parents.len();
        let ghost before = self.parents@;
        let ghost drained = before.subrange(n - MAX_PARENTS, n as int);
        let ghost g: Group = (group_commit, drained);
        self.parents.truncate(n - MAX_PARENTS);
        self.parents.push(group_commit);
        proof {
            let after = self.parents@;
            assert(after.last() == group_commit);
            assert(after.contains(group_commit));
            assert forall|y: ObjectId| before.contains(y) implies after.contains(y) || g.1.contains(y) by {
                let i = choose|i: int| 0 <= i < before.len() && before[i] == y;
                if i < n - MAX_PARENTS {
                    assert(after[i] == y);
                } else {
                    assert(drained[i - (n - MAX_PARENTS)] == y);
                }
            }
            assert forall|x: ObjectId| self.initial@.contains(x) implies #[trigger] reaches(
                after,
                self.groups@.push(g),
                x,
            ) by {
                lemma_reaches_grow(before, after, self.groups@, g, x);
            }
            let gs = self.groups@;
            let gs2 = gs.push(g);
            assert forall|x: ObjectId| is_group_id(gs, x) implies is_group_id(gs2, x) by {
                let k = choose|k: int| 0 <= k < gs.len() && (#[trigger] gs[k]).0 == x;
                assert(gs2[k] == gs[k]);
            }
            assert(gs2[gs.len() as int].0 == group_commit);
            assert forall|x: ObjectId| #[trigger] after.contains(x) implies self.initial@.contains(x)
                || is_group_id(gs2, x) by {
                if x != group_commit {
                    let i = choose|i: int| 0 <= i < after.len() && after[i] == x;
                    assert(before[i] == x);
                    assert(before.contains(x));
                }
            }
            assert forall|k: int, x: ObjectId|
                0 <= k < gs2.len() && #[trigger] gs2[k].1.contains(x) implies self.initial@.contains(x)
                || is_group_id(gs2, x) by {
                if k < gs.len() {
                    assert(gs2[k] == gs[k]);
                } else {
                    let i = choose|i: int| 0 <= i < drained.len() && drained[i] == x;
                    assert(before[i + (n - MAX_PARENTS)] == x);
                    assert(before.contains(x));
                }
            }
        }
        self.groups = Ghost(self.groups@.push(g));
    }

    /// The parents of the log commit: `simplified` first, then the pending
    /// ones. Called once no grouping commit is needed.
    pub fn finish(self, simplified: ObjectId) -> (r: Vec<ObjectId>)
        requires
            self.pending().len() < MAX_PARENTS,
        ensures
            r@ == seq![simplified] + self.pending(),
            r@.len() <= MAX_PARENTS,
    {
        let mut r = self.parents;
        r.insert(0, simplified);
        proof {
            assert(r@ =~= seq![simplified] + self.pending());
        }
        r
    }

    /// Every parent the reduction started from is reachable from the pending
    /// parents through the grouping commits, every grouping commit has
    /// exactly `MAX_PARENTS` parents, and no id but the initial ones and the
    /// grouping commits appears.
    pub proof fn lemma_pins_all(&self, x: ObjectId)
        requires
            self.wf(),
            self.initial().contains(x),
        ensures
            reaches(self.pending(), self.groups(), x),
            adds_nothing(self.initial(), self.pending(), self.groups()),
            forall|k: int| 0 <= k < self.groups().len() ==> (#[trigger] self.groups()[k]).1.len() == MAX_PARENTS,
    {
    }
}

} // verus!
