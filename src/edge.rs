//! The data carried by one co-change edge: the change-sets and the
//! finer-grained sub-changes that produced or reinforced it.
use vstd::prelude::*;

verus! {

/// Whether `v` holds the string `x`.
pub fn contains_string(v: &Vec<String>, x: &String) -> (r: bool)
    ensures
        r == v.deep_view().contains(x@),
{
    let mut i: usize = 0;
    while i < v.len()
        invariant
            i <= v.len(),
            forall|j: int| 0 <= j < i ==> v.deep_view()[j] != x@,
        decreases v.len() - i,
    {
        if v[i] == *x {
            assert(v.deep_view()[i as int] == x@);
            return true;
        }
        i += 1;
    }
    false
}

/// Whether `v` holds the number `x`.
pub fn contains_u64(v: &Vec<u64>, x: u64) -> (r: bool)
    ensures
        r == v@.contains(x),
{
    let mut i: usize = 0;
    while i < v.len()
        invariant
            i <= v.len(),
            forall|j: int| 0 <= j < i ==> v@[j] != x,
        decreases v.len() - i,
    {
        if v[i] == x {
            return true;
        }
        i += 1;
    }
    false
}

/// A copy of `v`.
pub fn copy_strings(v: &Vec<String>) -> (r: Vec<String>)
    ensures
        r.deep_view() == v.deep_view(),
{
    let mut r: Vec<String> = Vec::new();
    let mut i: usize = 0;
    while i < v.len()
        invariant
            i <= v.len(),
            r.deep_view() == v.deep_view().subrange(0, i as int),
        decreases v.len() - i,
    {
        let s = v[i].clone();
        let ghost before = r.deep_view();
        r.push(s);
        assert(r.deep_view() =~= before.push(v.deep_view()[i as int]));
        i += 1;
        assert(r.deep_view() =~= v.deep_view().subrange(0, i as int));
    }
    assert(r.deep_view() =~= v.deep_view());
    r
}

/// A copy of `v`.
pub fn copy_u64s(v: &Vec<u64>) -> (r: Vec<u64>)
    ensures
        r@ == v@,
{
    let mut r: Vec<u64> = Vec::new();
    let mut i: usize = 0;
    while i < v.len()
        invariant
            i <= v.len(),
            r@ == v@.subrange(0, i as int),
        decreases v.len() - i,
    {
        r.push(v[i]);
        i += 1;
        assert(r@ =~= v@.subrange(0, i as int));
    }
    assert(r@ =~= v@);
    r
}

/// The contributions behind one undirected co-change relationship.
///
/// Both lists are sets kept in order of first contribution: neither holds a
/// value twice. The edge's weight is the number of distinct change-set
/// identifiers, never a separate counter.
#[derive(Clone)]
pub struct ChangeEdge {
    pr_numbers: Vec<u64>,
    commit_numbers: Vec<String>,
}

impl ChangeEdge {
    /// The change-set identifiers, in order of first contribution.
    pub closed spec fn change_ids(&self) -> Seq<u64> {
        self.pr_numbers@
    }

    /// The sub-change identifiers, in order of first contribution.
    pub closed spec fn sub_change_ids(&self) -> Seq<Seq<char>> {
        self.commit_numbers.deep_view()
    }

    /// Neither list holds a value twice.
    pub open spec fn wf(&self) -> bool {
        &&& self.change_ids().no_duplicates()
        &&& self.sub_change_ids().no_duplicates()
    }

    /// An edge first seen in change-set `pr_number`, within sub-change
    /// `commit_numbers`.
    pub fn new(pr_number: u64, commit_numbers: String) -> (r: ChangeEdge)
        ensures
            r.wf(),
            r.change_ids() == seq![pr_number],
            r.sub_change_ids() == seq![commit_numbers@],
    {
        let r = ChangeEdge { pr_numbers: vec![pr_number], commit_numbers: vec![commit_numbers] };
        assert(r.sub_change_ids() =~= seq![r.commit_numbers@[0]@]);
        r
    }

    /// An edge first seen in change-set `pr_number`, with no sub-change.
    pub fn with_change(pr_number: u64) -> (r: ChangeEdge)
        ensures
            r.wf(),
            r.change_ids() == seq![pr_number],
            r.sub_change_ids() == Seq::<Seq<char>>::empty(),
    {
        let r = ChangeEdge { pr_numbers: vec![pr_number], commit_numbers: Vec::new() };
        assert(r.sub_change_ids() =~= Seq::<Seq<char>>::empty());
        r
    }

    /// An edge with exactly the given contributions, or `None` where either
    /// list holds a value twice.
    pub fn from_lists(pr_numbers: Vec<u64>, commit_numbers: Vec<String>) -> (r: Option<ChangeEdge>)
        ensures
            r is Some <==> (pr_numbers@.no_duplicates() && commit_numbers.deep_view().no_duplicates()),
            r matches Some(e) ==> e.wf() && e.change_ids() == pr_numbers@
                && e.sub_change_ids() == commit_numbers.deep_view(),
    {
        let mut prs: Vec<u64> = Vec::new();
        let mut i: usize = 0;
        while i < pr_numbers.len()
            invariant
                i <= pr_numbers.len(),
                prs@ == pr_numbers@.subrange(0, i as int),
                prs@.no_duplicates(),
            decreases pr_numbers.len() - i,
        {
            if contains_u64(&prs, pr_numbers[i]) {
                proof {
                    let k = choose|k: int| 0 <= k < prs@.len() && prs@[k] == pr_numbers@[i as int];
                    assert(pr_numbers@[k] == pr_numbers@[i as int]);
                }
                return None;
            }
            prs.push(pr_numbers[i]);
            i += 1;
            assert(prs@ =~= pr_numbers@.subrange(0, i as int));
        }
        assert(prs@ =~= pr_numbers@);
        let mut commits: Vec<String> = Vec::new();
        let mut j: usize = 0;
        while j < commit_numbers.len()
            invariant
                j <= commit_numbers.len(),
                prs@ == pr_numbers@,
                prs@.no_duplicates(),
                commits.deep_view() == commit_numbers.deep_view().subrange(0, j as int),
                commits.deep_view().no_duplicates(),
            decreases commit_numbers.len() - j,
        {
            let c = commit_numbers[j].clone();
            if contains_string(&commits, &c) {
                proof {
                    let k = choose|k: int| 0 <= k < commits.deep_view().len() && commits.deep_view()[k] == c@;
                    assert(commit_numbers.deep_view()[k] == commit_numbers.deep_view()[j as int]);
                }
                return None;
            }
            assert(c@ == commit_numbers.deep_view()[j as int]);
            let ghost before = commits.deep_view();
            commits.push(c);
            assert(commits.deep_view() =~= before.push(commit_numbers.deep_view()[j as int]));
            j += 1;
            assert(commits.deep_view() =~= commit_numbers.deep_view().subrange(0, j as int));
        }
        assert(commits.deep_view() =~= commit_numbers.deep_view());
        Some(ChangeEdge { pr_numbers: prs, commit_numbers: commits })
    }

    /// Records sub-change `commit_number`, unless it is already recorded.
    pub fn add_commit(&mut self, commit_number: String)
        requires
            old(self).wf(),
        ensures
            final(self).wf(),
            final(self).change_ids() == old(self).change_ids(),
            final(self).sub_change_ids() == if old(self).sub_change_ids().contains(commit_number@) {
                old(self).sub_change_ids()
            } else {
                old(self).sub_change_ids().push(commit_number@)
            },
    {
        if !contains_string(&self.commit_numbers, &commit_number) {
            self.commit_numbers.push(commit_number);
            assert(self.sub_change_ids() =~= old(self).sub_change_ids().push(commit_number@));
        }
    }

    /// Records change-set `pr_number`, unless it is already recorded.
    pub fn add_pr(&mut self, pr_number: u64)
        requires
            old(self).wf(),
        ensures
            final(self).wf(),
            final(self).sub_change_ids() == old(self).sub_change_ids(),
            final(self).change_ids() == if old(self).change_ids().contains(pr_number) {
                old(self).change_ids()
            } else {
                old(self).change_ids().push(pr_number)
            },
    {
        if !contains_u64(&self.pr_numbers, pr_number) {
            self.pr_numbers.push(pr_number);
            assert(self.sub_change_ids() =~= old(self).sub_change_ids());
        }
    }

    /// The change-set identifiers, in order of first contribution.
    pub fn pr_numbers(&self) -> (r: &Vec<u64>)
        ensures
            r@ == self.change_ids(),
    {
        &self.pr_numbers
    }

    /// The sub-change identifiers, in order of first contribution.
    pub fn commit_numbers(&self) -> (r: &Vec<String>)
        ensures
            r.deep_view() == self.sub_change_ids(),
    {
        &self.commit_numbers
    }

    /// The number of distinct change-sets that contributed to this edge.
    pub fn weight(&self) -> (r: usize)
        ensures
            r == self.change_ids().len(),
    {
        self.pr_numbers.len()
    }
}

} // verus!
