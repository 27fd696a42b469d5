//! Necessity index: for each element, the number of antichain members that
//! contain it. The proportion `count / n_antichain` (rounded to six
//! decimals, undefined for an empty antichain) is read off these counts.

use vstd::prelude::*;
use crate::cell::Cell;

verus! {

/// One element's necessity counts.
#[derive(Debug, Clone)]
pub struct NecessityIndexRow {
    /// 0-based element (observation) index.
    pub element_idx: u32,
    /// Element name.
    pub element_name: String,
    /// Number of members in the antichain.
    pub n_antichain: usize,
    /// Number of members containing the element.
    pub count: usize,
}

/// Number of the first `n` members that contain element `e`.
pub open spec fn members_with(members: Seq<Vec<u32>>, e: u32, n: nat) -> nat
    decreases n,
{
    if n == 0 {
        0
    } else {
        members_with(members, e, (n - 1) as nat) + if members[n - 1]@.contains(e) {
            1nat
        } else {
            0nat
        }
    }
}

/// At most `n` of the first `n` members contain an element.
pub proof fn lemma_members_with_le(members: Seq<Vec<u32>>, e: u32, n: nat)
    ensures
        members_with(members, e, n) <= n,
    decreases n,
{
    if n > 0 {
        lemma_members_with_le(members, e, (n - 1) as nat);
    }
}

/// Whether `member` lists element `e`.
pub fn member_contains(member: &Vec<u32>, e: u32) -> (b: bool)
    ensures
        b == member@.contains(e),
{
    let mut t: usize = 0;
    while t < member.len()
        invariant
            t <= member@.len(),
            forall|u: int| 0 <= u < t ==> member@[u] != e,
        decreases member@.len() - t,
    {
        if member[t] == e {
            proof {
                assert(member@[t as int] == e);
            }
            return true;
        }
        t = t + 1;
    }
    false
}

/// Number of members containing element `e`.
pub fn count_members_with(members: &Vec<Vec<u32>>, e: u32) -> (c: usize)
    ensures
        c == members_with(members@, e, members@.len()),
{
    let mut c: usize = 0;
    let mut k: usize = 0;
    while k < members.len()
        invariant
            k <= members@.len(),
            c == members_with(members@, e, k as nat),
        decreases members@.len() - k,
    {
        proof {
            lemma_members_with_le(members@, e, k as nat);
        }
        if member_contains(&members[k], e) {
            c = c + 1;
        }
        k = k + 1;
    }
    c
}

/// One row per element name: the element's index, name, the antichain
/// size, and the number of members containing the element.
pub fn necessity_index(cell: &Cell, element_names: &[&str]) -> (rows: Vec<NecessityIndexRow>)
    requires
        element_names@.len() <= u32::MAX + 1,
    ensures
        rows@.len() == element_names@.len(),
        forall|i: int|
            0 <= i < rows@.len() ==> {
                let r = #[trigger] rows@[i];
                &&& r.element_idx == i
                &&& r.element_name@ == element_names@[i]@
                &&& r.n_antichain == cell.members@.len()
                &&& r.count == members_with(cell.members@, i as u32, cell.members@.len())
            },
{
    let n_ac = cell.members.len();
    let mut rows: Vec<NecessityIndexRow> = Vec::new();
    let mut idx: usize = 0;
    while idx < element_names.len()
        invariant
            idx <= element_names@.len(),
            element_names@.len() <= u32::MAX + 1,
            n_ac == cell.members@.len(),
            rows@.len() == idx,
            forall|i: int|
                0 <= i < idx ==> {
                    let r = #[trigger] rows@[i];
                    &&& r.element_idx == i
                    &&& r.element_name@ == element_names@[i]@
                    &&& r.n_antichain == cell.members@.len()
                    &&& r.count == members_with(cell.members@, i as u32, cell.members@.len())
                },
        decreases element_names@.len() - idx,
    {
        let e = idx as u32;
        let count = count_members_with(&cell.members, e);
        let name: String = element_names[idx].to_owned();
        rows.push(NecessityIndexRow { element_idx: e, element_name: name, n_antichain: n_ac, count });
        idx = idx + 1;
    }
    rows
}

/// Every count is at most the antichain size, so each proportion lies in
/// `[0, 1]`.
pub proof fn lemma_necessity_count_bounded(members: Seq<Vec<u32>>, e: u32)
    ensures
        members_with(members, e, members.len()) <= members.len(),
{
    lemma_members_with_le(members, e, members.len());
}

} // verus!
