//! Identifiers, lists of identifiers in ascending order with a binary search
//! over them, lists in any order with what is needed to take identifiers out
//! of them, and sets of identifiers.

use vstd::prelude::*;

verus! {

/// Identifier of an entry, a tag or a sequence. Unique within one database
/// and never issued twice.
pub type Uid = u64;

/// The identifiers of `ids` are strictly ascending. Such a list holds no
/// identifier twice, and it is the only ascending list of its elements.
pub open spec fn ascending(ids: Seq<Uid>) -> bool {
    forall|i: int, j: int| 0 <= i < j < ids.len() ==> ids[i] < ids[j]
}

/// Every identifier of `ids` is below `bound`.
pub open spec fn all_below(ids: Seq<Uid>, bound: int) -> bool {
    forall|i: int| 0 <= i < ids.len() ==> ids[i] < bound
}

/// Two ascending lists with the same elements are the same list. So a
/// contract that says what a list holds and that it ascends says what the
/// list is.
pub proof fn lemma_ascending_unique(a: Seq<Uid>, b: Seq<Uid>)
    requires
        ascending(a),
        ascending(b),
        forall|id: Uid| a.contains(id) <==> b.contains(id),
    ensures
        a == b,
    decreases a.len(),
{
    if a.len() == 0 {
        if b.len() > 0 {
            assert(a.contains(b[0]));
        }
    } else if b.len() == 0 {
        assert(b.contains(a[0]));
    } else {
        let la = a.last();
        let lb = b.last();
        assert(b.contains(la));
        assert(a.contains(lb));
        let a0 = a.drop_last();
        let b0 = b.drop_last();
        assert forall|id: Uid| a0.contains(id) <==> b0.contains(id) by {
            if a0.contains(id) {
                assert(a.contains(id));
                let j = choose|j: int| 0 <= j < b.len() && b[j] == id;
                assert(b0[j] == id);
            }
            if b0.contains(id) {
                assert(b.contains(id));
                let j = choose|j: int| 0 <= j < a.len() && a[j] == id;
                assert(a0[j] == id);
            }
        }
        lemma_ascending_unique(a0, b0);
        assert(b =~= b0.push(lb));
    }
}

/// The position at which `id` stands in the ascending list `ids`, or where it
/// would have to be inserted to keep the list ascending: everything before
/// the position is smaller than `id`, everything from it on is not.
pub fn lower_bound(ids: &Vec<Uid>, id: Uid) -> (pos: usize)
    requires
        ascending(ids@),
    ensures
        pos <= ids.len(),
        forall|i: int| 0 <= i < pos ==> ids[i] < id,
        forall|i: int| pos <= i < ids.len() ==> ids[i] >= id,
{
    let mut lo: usize = 0;
    let mut hi: usize = ids.len();
    while lo < hi
        invariant
            lo <= hi <= ids.len(),
            ascending(ids@),
            forall|i: int| 0 <= i < lo ==> ids[i] < id,
            forall|i: int| hi <= i < ids.len() ==> ids[i] >= id,
        decreases hi - lo,
    {
        let mid: usize = lo + (hi - lo) / 2;
        if ids[mid] < id {
            lo = mid + 1;
        } else {
            hi = mid;
        }
    }
    lo
}

/// Where `id` stands in the ascending list `ids`, if it is there.
pub fn find(ids: &Vec<Uid>, id: Uid) -> (found: Option<usize>)
    requires
        ascending(ids@),
    ensures
        match found {
            Some(pos) => pos < ids.len() && ids[pos as int] == id,
            None => !ids@.contains(id),
        },
{
    let pos = lower_bound(ids, id);
    if pos < ids.len() && ids[pos] == id {
        Some(pos)
    } else {
        None
    }
}

/// A finite set of identifiers, kept as an ascending list.
#[derive(Debug, Clone, PartialEq, Eq)]
pub struct UidSet {
    items: Vec<Uid>,
}

impl View for UidSet {
    type V = Set<Uid>;

    /// The identifiers in the set.
    open spec fn view(&self) -> Set<Uid> {
        self.ids().to_set()
    }
}

impl UidSet {
    /// The members, in the order in which they are handed out.
    pub closed spec fn ids(&self) -> Seq<Uid> {
        self.items@
    }

    /// The members are held in ascending order.
    pub open spec fn wf(&self) -> bool {
        ascending(self.ids())
    }

    /// The empty set.
    pub fn new() -> (s: UidSet)
        ensures
            s.wf(),
            s.ids() == Seq::<Uid>::empty(),
            s@ == Set::<Uid>::empty(),
    {
        let s = UidSet { items: Vec::new() };
        s
    }

    /// The set of the identifiers in the ascending list `ids`.
    pub fn from_ascending(ids: Vec<Uid>) -> (s: UidSet)
        requires
            ascending(ids@),
        ensures
            s.wf(),
            s.ids() == ids@,
    {
        UidSet { items: ids }
    }

    /// The set of the identifiers in `ids`, which may be in any order and
    /// hold an identifier more than once.
    pub fn from_ids(ids: &[Uid]) -> (s: UidSet)
        ensures
            s.wf(),
            s@ == ids@.to_set(),
    {
        let mut s = UidSet::new();
        let mut i: usize = 0;
        while i < ids.len()
            invariant
                i <= ids.len(),
                s.wf(),
                s@ == ids@.take(i as int).to_set(),
            decreases ids.len() - i,
        {
            s.insert(ids[i]);
            proof {
                assert(ids@.take(i + 1) =~= ids@.take(i as int).push(ids[i as int]));
                assert(ids@.take(i + 1).to_set() =~= ids@.take(i as int).to_set().insert(
                    ids[i as int],
                )) by {
                    lemma_push_to_set(ids@.take(i as int), ids[i as int]);
                }
            }
            i = i + 1;
        }
        assert(ids@.take(ids.len() as int) =~= ids@);
        s
    }

    /// Number of members.
    pub fn len(&self) -> (n: usize)
        ensures
            n == self.ids().len(),
    {
        self.items.len()
    }

    /// Whether the set has no member.
    pub fn is_empty(&self) -> (b: bool)
        ensures
            b == (self.ids().len() == 0),
            b == (self@ == Set::<Uid>::empty()),
    {
        proof {
            if self.items@.len() > 0 {
                assert(self@.contains(self.ids()[0]));
            } else {
                assert(self.ids().to_set() =~= Set::<Uid>::empty());
            }
        }
        self.items.len() == 0
    }

    /// The member at position `i` of the ascending order.
    pub fn id_at(&self, i: usize) -> (id: Uid)
        requires
            i < self.ids().len(),
        ensures
            id == self.ids()[i as int],
            self@.contains(id),
    {
        self.items[i]
    }

    /// Whether `id` is a member.
    pub fn contains(&self, id: Uid) -> (b: bool)
        requires
            self.wf(),
        ensures
            b == self@.contains(id),
    {
        find(&self.items, id).is_some()
    }

    /// Adds `id`. Returns whether it was new.
    pub fn insert(&mut self, id: Uid) -> (fresh: bool)
        requires
            old(self).wf(),
        ensures
            final(self).wf(),
            final(self)@ == old(self)@.insert(id),
            fresh == !old(self)@.contains(id),
    {
        let pos = lower_bound(&self.items, id);
        if pos < self.items.len() && self.items[pos] == id {
            false
        } else {
            self.items.insert(pos, id);
            proof {
                let before = old(self).ids();
                let after = self.ids();
                assert forall|x: Uid| after.contains(x) <==> (before.contains(x) || x == id) by {
                    if before.contains(x) {
                        let k = choose|k: int| 0 <= k < before.len() && before[k] == x;
                        if k < pos {
                            assert(after[k] == x);
                        } else {
                            assert(after[k + 1] == x);
                        }
                    }
                    if x == id {
                        assert(after[pos as int] == x);
                    }
                }
            }
            true
        }
    }

    /// Adds every identifier of `ids`.
    pub fn insert_all(&mut self, ids: &Vec<Uid>)
        requires
            old(self).wf(),
        ensures
            final(self).wf(),
            final(self)@ == old(self)@.union(ids@.to_set()),
    {
        let mut k: usize = 0;
        while k < ids.len()
            invariant
                k <= ids.len(),
                self.wf(),
                self@ == old(self)@.union(ids@.take(k as int).to_set()),
            decreases ids.len() - k,
        {
            self.insert(ids[k]);
            proof {
                assert(ids@.take(k + 1) =~= ids@.take(k as int).push(ids[k as int]));
                lemma_push_to_set(ids@.take(k as int), ids[k as int]);
            }
            k = k + 1;
        }
        assert(ids@.take(ids.len() as int) =~= ids@);
    }

    /// Removes `id`. Returns whether it was a member.
    pub fn remove(&mut self, id: Uid) -> (was_member: bool)
        requires
            old(self).wf(),
        ensures
            final(self).wf(),
            final(self)@ == old(self)@.remove(id),
            was_member == old(self)@.contains(id),
    {
        match find(&self.items, id) {
            Some(pos) => {
                self.items.remove(pos);
                proof {
                    let before = old(self).ids();
                    let after = self.ids();
                    assert forall|x: Uid| after.contains(x) <==> (before.contains(x) && x != id) by {
                        if before.contains(x) && x != id {
                            let k = choose|k: int| 0 <= k < before.len() && before[k] == x;
                            if k < pos {
                                assert(after[k] == x);
                            } else {
                                assert(after[k - 1] == x);
                            }
                        }
                    }
                }
                true
            },
            None => {
                false
            },
        }
    }

    /// Removes every member.
    pub fn clear(&mut self)
        ensures
            final(self).wf(),
            final(self).ids() == Seq::<Uid>::empty(),
            final(self)@ == Set::<Uid>::empty(),
    {
        self.items.clear();
    }

    /// The members in ascending order.
    pub fn to_vec(&self) -> (v: Vec<Uid>)
        ensures
            v@ == self.ids(),
    {
        self.items.clone()
    }

    /// A copy of the set.
    pub fn duplicate(&self) -> (s: UidSet)
        ensures
            s.ids() == self.ids(),
            s@ == self@,
    {
        UidSet { items: self.items.clone() }
    }
}

/// A list with one more identifier pushed holds that identifier and what
/// it held.
pub proof fn lemma_push_has(ids: Seq<Uid>, id: Uid, x: Uid)
    ensures
        ids.push(id).contains(x) <==> (ids.contains(x) || x == id),
{
    let all = ids.push(id);
    if ids.contains(x) {
        let k = choose|k: int| 0 <= k < ids.len() && ids[k] == x;
        assert(all[k] == x);
    }
    if x == id {
        assert(all[ids.len() as int] == x);
    }
}

/// The elements of a list with one more pushed are those of the list and
/// the new one.
pub proof fn lemma_push_to_set(s: Seq<Uid>, id: Uid)
    ensures
        s.push(id).to_set() == s.to_set().insert(id),
{
    let t = s.push(id);
    assert forall|x: Uid| t.to_set().contains(x) <==> s.to_set().insert(id).contains(x) by {
        lemma_push_has(s, id, x);
    }
}

/// Whether `id` stands in `ids`.
pub fn list_has(ids: &Vec<Uid>, id: Uid) -> (b: bool)
    ensures
        b == ids@.contains(id),
{
    let mut i: usize = 0;
    while i < ids.len()
        invariant
            i <= ids.len(),
            forall|j: int| 0 <= j < i ==> ids[j] != id,
        decreases ids.len() - i,
    {
        if ids[i] == id {
            return true;
        }
        i = i + 1;
    }
    false
}

/// `tags` with the members of `gone` left out, the others in their order.
pub open spec fn without(tags: Seq<Uid>, gone: Set<Uid>) -> Seq<Uid>
    decreases tags.len(),
{
    if tags.len() == 0 {
        Seq::empty()
    } else if gone.contains(tags.last()) {
        without(tags.drop_last(), gone)
    } else {
        without(tags.drop_last(), gone).push(tags.last())
    }
}

/// What is left of `tags` holds exactly the identifiers of `tags` that are
/// not in `gone`.
pub proof fn lemma_without_contains(tags: Seq<Uid>, gone: Set<Uid>, id: Uid)
    ensures
        without(tags, gone).contains(id) <==> (tags.contains(id) && !gone.contains(id)),
    decreases tags.len(),
{
    if tags.len() > 0 {
        let rest = tags.drop_last();
        lemma_without_contains(rest, gone, id);
        let kept = without(rest, gone);
        if tags.contains(id) && !rest.contains(id) {
            let j = choose|j: int| 0 <= j < tags.len() && tags[j] == id;
            if j < rest.len() {
                assert(rest[j] == id);
            }
        }
        if gone.contains(tags.last()) {
        } else {
            let all = kept.push(tags.last());
            if kept.contains(id) {
                let j = choose|j: int| 0 <= j < kept.len() && kept[j] == id;
                assert(all[j] == id);
            }
            assert(all[kept.len() as int] == tags.last());
        }
    }
}

/// Leaving out one set and then another leaves out their union.
pub proof fn lemma_without_twice(tags: Seq<Uid>, first: Set<Uid>, second: Set<Uid>)
    ensures
        without(without(tags, first), second) == without(tags, first.union(second)),
    decreases tags.len(),
{
    if tags.len() > 0 {
        let rest = tags.drop_last();
        lemma_without_twice(rest, first, second);
        if !first.contains(tags.last()) {
            let kept = without(rest, first);
            assert(kept.push(tags.last()).drop_last() =~= kept);
        }
    }
}

/// Leaving out nothing leaves the list as it is.
pub proof fn lemma_without_nothing(tags: Seq<Uid>)
    ensures
        without(tags, Set::empty()) == tags,
    decreases tags.len(),
{
    if tags.len() > 0 {
        lemma_without_nothing(tags.drop_last());
    }
}

/// `ids` without every occurrence of `gone`, the others in their order.
pub fn list_without(ids: &Vec<Uid>, gone: Uid) -> (kept: Vec<Uid>)
    ensures
        kept@ == without(ids@, set![gone]),
{
    let mut kept: Vec<Uid> = Vec::new();
    let mut i: usize = 0;
    while i < ids.len()
        invariant
            i <= ids.len(),
            kept@ == without(ids@.take(i as int), set![gone]),
        decreases ids.len() - i,
    {
        let id = ids[i];
        proof {
            let next = ids@.take(i + 1);
            assert(next.drop_last() =~= ids@.take(i as int));
        }
        if id != gone {
            kept.push(id);
        }
        i = i + 1;
    }
    assert(ids@.take(ids.len() as int) =~= ids@);
    kept
}

/// The identifiers of `ids` that are in `live`, in their order.
pub fn list_within(ids: &Vec<Uid>, live: &UidSet) -> (kept: Vec<Uid>)
    requires
        live.wf(),
    ensures
        kept@ == without(ids@, live@.complement()),
{
    let mut kept: Vec<Uid> = Vec::new();
    let mut i: usize = 0;
    while i < ids.len()
        invariant
            i <= ids.len(),
            live.wf(),
            kept@ == without(ids@.take(i as int), live@.complement()),
        decreases ids.len() - i,
    {
        let id = ids[i];
        proof {
            let next = ids@.take(i + 1);
            assert(next.drop_last() =~= ids@.take(i as int));
        }
        if live.contains(id) {
            kept.push(id);
        }
        i = i + 1;
    }
    assert(ids@.take(ids.len() as int) =~= ids@);
    kept
}

} // verus!
