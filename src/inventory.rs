use vstd::prelude::*;
use crate::record::FileData;

verus! {

/// The records of the successful outcomes, in the order they came.
pub open spec fn successes(outcomes: Seq<Option<FileData>>) -> Seq<FileData>
    decreases outcomes.len(),
{
    if outcomes.len() == 0 {
        Seq::empty()
    } else {
        let rest = successes(outcomes.drop_last());
        match outcomes.last() {
            Some(r) => rest.push(r),
            None => rest,
        }
    }
}

/// The paths that some record of `records` describes.
pub open spec fn path_set(records: Seq<FileData>) -> Set<Seq<char>> {
    Set::new(|p: Seq<char>| exists|i: int| 0 <= i < records.len() && #[trigger] records[i].file_path@ == p)
}

/// A path is included exactly when some outcome is a success for it.
pub proof fn lemma_path_set_of_successes(outcomes: Seq<Option<FileData>>, p: Seq<char>)
    ensures
        path_set(successes(outcomes)).contains(p) <==> exists|i: int|
            0 <= i < outcomes.len() && #[trigger] outcomes[i] is Some
                && outcomes[i]->Some_0.file_path@ == p,
    decreases outcomes.len(),
{
    if outcomes.len() > 0 {
        let d = outcomes.drop_last();
        lemma_path_set_of_successes(d, p);
        let s = successes(outcomes);
        let t = successes(d);
        if path_set(s).contains(p) {
            let i = choose|i: int| 0 <= i < s.len() && #[trigger] s[i].file_path@ == p;
            if i < t.len() {
                assert(path_set(t).contains(p));
                let j = choose|j: int| 0 <= j < d.len() && #[trigger] d[j] is Some
                    && d[j]->Some_0.file_path@ == p;
                assert(outcomes[j] == d[j]);
            } else {
                assert(outcomes[outcomes.len() - 1] is Some);
            }
        }
        if exists|i: int| 0 <= i < outcomes.len() && #[trigger] outcomes[i] is Some
            && outcomes[i]->Some_0.file_path@ == p {
            let i = choose|i: int| 0 <= i < outcomes.len() && #[trigger] outcomes[i] is Some
                && outcomes[i]->Some_0.file_path@ == p;
            if i < d.len() {
                assert(d[i] == outcomes[i]);
                assert(path_set(t).contains(p));
                let k = choose|k: int| 0 <= k < t.len() && #[trigger] t[k].file_path@ == p;
                assert(s[k] == t[k]);
            } else {
                assert(s[s.len() - 1].file_path@ == p);
            }
        }
    }
}

/// The set of included paths does not depend on the order in which the
/// workers complete: any reordering of the same outcomes includes the same
/// paths.
pub proof fn lemma_paths_independent_of_completion_order(
    a: Seq<Option<FileData>>,
    b: Seq<Option<FileData>>,
)
    requires
        a.to_multiset() == b.to_multiset(),
    ensures
        path_set(successes(a)) == path_set(successes(b)),
{
    broadcast use vstd::seq_lib::to_multiset_contains;
    assert forall|p: Seq<char>| path_set(successes(a)).contains(p) implies path_set(successes(b)).contains(p) by {
        lemma_path_set_of_successes(a, p);
        lemma_path_set_of_successes(b, p);
        let i = choose|i: int| 0 <= i < a.len() && #[trigger] a[i] is Some && a[i]->Some_0.file_path@ == p;
        assert(a.contains(a[i]));
        assert(a.to_multiset().count(a[i]) > 0);
        assert(b.to_multiset().count(a[i]) > 0);
        assert(b.contains(a[i]));
        let j = choose|j: int| 0 <= j < b.len() && b[j] == a[i];
        assert(b[j] is Some);
    }
    assert forall|p: Seq<char>| path_set(successes(b)).contains(p) implies path_set(successes(a)).contains(p) by {
        lemma_path_set_of_successes(a, p);
        lemma_path_set_of_successes(b, p);
        let i = choose|i: int| 0 <= i < b.len() && #[trigger] b[i] is Some && b[i]->Some_0.file_path@ == p;
        assert(b.contains(b[i]));
        assert(b.to_multiset().count(b[i]) > 0);
        assert(a.to_multiset().count(b[i]) > 0);
        assert(a.contains(b[i]));
        let j = choose|j: int| 0 <= j < a.len() && a[j] == b[i];
        assert(a[j] is Some);
    }
    assert(path_set(successes(a)) =~= path_set(successes(b)));
}

/// The records gathered from the workers, one per successfully processed entry.
pub struct Inventory {
    records: Vec<FileData>,
}

impl View for Inventory {
    type V = Seq<FileData>;

    closed spec fn view(&self) -> Seq<FileData> {
        self.records@
    }
}

impl Inventory {
    /// Every record is well formed.
    pub open spec fn wf(&self) -> bool {
        forall|i: int| 0 <= i < self@.len() ==> (#[trigger] self@[i]).well_formed()
    }

    /// An empty inventory.
    pub fn new() -> (r: Inventory)
        ensures
            r@ == Seq::<FileData>::empty(),
            r.wf(),
    {
        Inventory { records: Vec::new() }
    }

    /// Takes one worker's outcome: a record is kept, a failure is dropped.
    pub fn add_outcome(&mut self, outcome: Option<FileData>)
        requires
            old(self).wf(),
            outcome matches Some(r) ==> r.well_formed(),
        ensures
            final(self).wf(),
            final(self)@ == match outcome {
                Some(r) => old(self)@.push(r),
                None => old(self)@,
            },
    {
        match outcome {
            Some(r) => {
                self.records.push(r);
                assert(forall|i: int| 0 <= i < old(self)@.len() ==> self@[i] == old(self)@[i]);
            },
            None => {},
        }
    }

    /// Gathers the outcomes in the order the workers completed.
    pub fn from_outcomes(outcomes: Vec<Option<FileData>>) -> (r: Inventory)
        requires
            forall|i: int| 0 <= i < outcomes@.len() ==> (#[trigger] outcomes@[i] matches Some(d)
                ==> d.well_formed()),
        ensures
            r.wf(),
            r@ == successes(outcomes@),
    {
        let ghost all = outcomes@;
        let mut inv = Inventory::new();
        let mut pending = outcomes;
        let mut rest: Vec<Option<FileData>> = Vec::new();
        while pending.len() > 0
            invariant
                pending@.len() + rest@.len() == all.len(),
                pending@ == all.subrange(0, pending@.len() as int),
                forall|k: int| 0 <= k < rest@.len() ==> rest@[k] == all[all.len() - 1 - k],
            decreases pending@.len(),
        {
            let o = pending.pop().unwrap();
            rest.push(o);
            assert(pending@ =~= all.subrange(0, pending@.len() as int));
        }
        assert(successes(all.subrange(0, 0)) =~= Seq::<FileData>::empty());
        while rest.len() > 0
            invariant
                inv.wf(),
                rest@.len() <= all.len(),
                forall|k: int| 0 <= k < rest@.len() ==> rest@[k] == all[all.len() - 1 - k],
                inv@ == successes(all.subrange(0, all.len() - rest@.len())),
                forall|i: int| 0 <= i < all.len() ==> (#[trigger] all[i] matches Some(d)
                    ==> d.well_formed()),
            decreases rest@.len(),
        {
            let o = rest.pop().unwrap();
            let ghost n = all.len() - rest@.len();
            assert(all.subrange(0, n).drop_last() =~= all.subrange(0, n - 1));
            inv.add_outcome(o);
        }
        assert(all.subrange(0, all.len() as int) =~= all);
        inv
    }

    /// Hands over the gathered records.
    pub fn into_records(self) -> (r: Vec<FileData>)
        ensures
            r@ == self@,
    {
        self.records
    }
}

/// The output document: the inventory's records under one envelope.
pub struct OutputData {
    pub file_data: Vec<FileData>,
}

impl OutputData {
    /// Wraps the inventory; nothing is added, dropped or reordered.
    pub fn build(inventory: Inventory) -> (r: OutputData)
        ensures
            r.file_data@ == inventory@,
    {
        OutputData { file_data: inventory.into_records() }
    }
}

} // verus!
