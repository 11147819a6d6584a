//! The rank groups of a task as a whole (their positions, names, activity,
//! merges and members), captured before a structural change and put back
//! when the change is undone.

use vstd::prelude::*;

use crate::paths::opt_text;
use crate::text::views;

verus! {

broadcast use vstd::seq_lib::group_seq_properties;

/// One rank group of a task with its members, as stored.
#[derive(Debug)]
pub struct GroupState {
    pub id: String,
    pub position: usize,
    pub name: Option<String>,
    pub is_active: bool,
    pub merged_into: Option<String>,
    pub items: Vec<String>,
}

/// Mathematical view of a stored group.
pub struct GroupStateView {
    pub id: Seq<char>,
    pub position: nat,
    pub name: Option<Seq<char>>,
    pub is_active: bool,
    pub merged_into: Option<Seq<char>>,
    pub items: Seq<Seq<char>>,
}

impl View for GroupState {
    type V = GroupStateView;

    open spec fn view(&self) -> GroupStateView {
        GroupStateView {
            id: self.id@,
            position: self.position as nat,
            name: opt_text(self.name),
            is_active: self.is_active,
            merged_into: opt_text(self.merged_into),
            items: views(self.items@),
        }
    }
}

pub open spec fn states_view(s: Seq<GroupState>) -> Seq<GroupStateView> {
    s.map_values(|g: GroupState| g@)
}

pub open spec fn state_ids(s: Seq<GroupStateView>) -> Seq<Seq<char>> {
    s.map_values(|g: GroupStateView| g.id)
}

/// The largest position among the groups, 0 for none.
pub open spec fn max_position(s: Seq<GroupStateView>) -> nat
    decreases s.len(),
{
    if s.len() == 0 {
        0
    } else {
        let m = max_position(s.drop_last());
        if s.last().position > m {
            s.last().position
        } else {
            m
        }
    }
}

/// How far groups left out of the snapshot move: past every stored
/// position and past the snapshot's positions.
pub open spec fn shift_offset(current: Seq<GroupStateView>, snapshot_len: nat) -> nat {
    if current.len() == 0 {
        snapshot_len
    } else {
        max_position(current) + snapshot_len + 1
    }
}

/// The group `c` after restoring the snapshot: the snapshot's state of the
/// group when it holds one, else inactive, unnamed, unmerged, empty, and
/// moved past the other positions.
pub open spec fn restored(c: GroupStateView, snapshot: Seq<GroupStateView>, offset: nat) -> GroupStateView {
    match state_ids(snapshot).index_of_first(c.id) {
        Some(k) => snapshot[k],
        None => GroupStateView {
            id: c.id,
            position: c.position + offset,
            name: None,
            is_active: false,
            merged_into: None,
            items: Seq::empty(),
        },
    }
}

proof fn lemma_max_position(s: Seq<GroupStateView>)
    ensures
        forall|i: int| 0 <= i < s.len() ==> (#[trigger] s[i]).position <= max_position(s),
        s.len() > 0 ==> exists|i: int| 0 <= i < s.len() && (#[trigger] s[i]).position == max_position(s),
    decreases s.len(),
{
    if s.len() > 0 {
        lemma_max_position(s.drop_last());
        if s.len() > 1 && s.last().position <= max_position(s.drop_last()) {
            let i = choose|i: int| 0 <= i < s.drop_last().len() && (#[trigger] s.drop_last()[i]).position == max_position(s.drop_last());
            assert(s[i] == s.drop_last()[i]);
        }
        assert forall|i: int| 0 <= i < s.len() implies (#[trigger] s[i]).position <= max_position(s) by {
            if i < s.len() - 1 {
                assert(s[i] == s.drop_last()[i]);
            }
        }
    }
}

/// A copy of a stored group.
fn copy_state(g: &GroupState) -> (r: GroupState)
    ensures
        r@ == g@,
{
    let name = match &g.name {
        Some(n) => Some(n.clone()),
        None => None,
    };
    let merged_into = match &g.merged_into {
        Some(n) => Some(n.clone()),
        None => None,
    };
    let items = crate::text::clone_strings(&g.items);
    GroupState { id: g.id.clone(), position: g.position, name, is_active: g.is_active, merged_into, items }
}

/// The groups of a task after putting back a captured snapshot: each group
/// the snapshot holds takes its captured position, name, activity, merge
/// and members; every other group becomes inactive, unnamed and empty, and
/// moves past all positions in use.
pub fn restore_topology(current: &Vec<GroupState>, snapshot: &Vec<GroupState>) -> (r: Vec<GroupState>)
    requires
        forall|i: int|
            0 <= i < current@.len() ==> (#[trigger] current@[i]).position + max_position(states_view(current@))
                + snapshot@.len() + 1 <= usize::MAX,
    ensures
        states_view(r@) == states_view(current@).map_values(
            |c: GroupStateView| restored(c, states_view(snapshot@), shift_offset(states_view(current@), snapshot@.len())),
        ),
{
    let ghost cv = states_view(current@);
    let ghost sv = states_view(snapshot@);
    let mut snapshot_ids: Vec<String> = Vec::new();
    for k in 0..snapshot.len()
        invariant
            sv == states_view(snapshot@),
            views(snapshot_ids@) == state_ids(sv).take(k as int),
    {
        let ghost before = snapshot_ids@;
        snapshot_ids.push(snapshot[k].id.clone());
        assert(views(snapshot_ids@) =~= views(before).push(state_ids(sv)[k as int]));
        assert(state_ids(sv).take(k + 1) =~= state_ids(sv).take(k as int).push(state_ids(sv)[k as int]));
    }
    assert(state_ids(sv).take(snapshot.len() as int) =~= state_ids(sv));
    assert(snapshot_ids@.len() == snapshot@.len());
    proof {
        lemma_max_position(cv);
    }
    let mut max: usize = 0;
    for i in 0..current.len()
        invariant
            cv == states_view(current@),
            max == max_position(cv.take(i as int)),
            max <= max_position(cv),
            forall|j: int| 0 <= j < cv.len() ==> (#[trigger] cv[j]).position <= max_position(cv),
    {
        assert(cv.take(i + 1).drop_last() =~= cv.take(i as int));
        assert(cv[i as int].position <= max_position(cv));
        if current[i].position > max {
            max = current[i].position;
        }
    }
    assert(cv.take(current.len() as int) =~= cv);
    let offset: usize = if current.len() == 0 {
        snapshot.len()
    } else {
        assert(cv[0].position <= max);
        max + snapshot.len() + 1
    };
    let ghost expected = cv.map_values(|c: GroupStateView| restored(c, sv, offset as nat));
    let mut out: Vec<GroupState> = Vec::new();
    for i in 0..current.len()
        invariant
            cv == states_view(current@),
            sv == states_view(snapshot@),
            views(snapshot_ids@) == state_ids(sv),
            snapshot_ids@.len() == snapshot@.len(),
            offset == shift_offset(cv, snapshot@.len()),
            max == max_position(cv),
            current@.len() > 0 ==> offset == max + snapshot@.len() + 1,
            forall|j: int|
                0 <= j < current@.len() ==> (#[trigger] current@[j]).position + max_position(cv) + snapshot@.len()
                    + 1 <= usize::MAX,
            expected == cv.map_values(|c: GroupStateView| restored(c, sv, offset as nat)),
            states_view(out@) == expected.take(i as int),
    {
        let g = &current[i];
        assert(cv[i as int] == g@);
        let entry = match crate::text::position_of(&snapshot_ids, &g.id) {
            Some(k) => copy_state(&snapshot[k]),
            None => GroupState {
                id: g.id.clone(),
                position: g.position + offset,
                name: None,
                is_active: false,
                merged_into: None,
                items: Vec::new(),
            },
        };
        proof {
            assert(views(Seq::<String>::empty()) =~= Seq::<Seq<char>>::empty());
            assert(state_ids(sv) == views(snapshot_ids@));
            match state_ids(sv).index_of_first(g@.id) {
                Some(k) => {
                    assert(sv[k] == snapshot@[k]@);
                },
                None => {},
            }
        }
        assert(entry@ =~= expected[i as int]);
        let ghost before = out@;
        out.push(entry);
        assert(states_view(out@) =~= states_view(before).push(expected[i as int]));
        assert(expected.take(i + 1) =~= expected.take(i as int).push(expected[i as int]));
    }
    assert(expected.take(current.len() as int) =~= expected);
    out
}

/// Undoing a structural change (a merge, a split, or the merge that ends a
/// matrix session) by restoring the groups captured before it brings back
/// exactly the groups as they were: every captured group has its captured
/// state again, and a group made after the capture is left inactive and
/// empty. So the active groups and their members are those of the capture.
pub proof fn lemma_restore_brings_back_capture(current: Seq<GroupStateView>, snapshot: Seq<GroupStateView>, offset: nat)
    requires
        state_ids(snapshot).no_duplicates(),
        forall|k: int| 0 <= k < snapshot.len() ==> state_ids(current).contains(#[trigger] snapshot[k].id),
    ensures
        ({
            let r = current.map_values(|c: GroupStateView| restored(c, snapshot, offset));
            &&& forall|k: int| 0 <= k < snapshot.len() ==> r.contains(#[trigger] snapshot[k])
            &&& forall|i: int|
                0 <= i < r.len() ==> (snapshot.contains(#[trigger] r[i]) || (!r[i].is_active && r[i].items.len() == 0))
            &&& forall|i: int| 0 <= i < r.len() && (#[trigger] r[i]).is_active ==> snapshot.contains(r[i])
        }),
{
    let r = current.map_values(|c: GroupStateView| restored(c, snapshot, offset));
    let ids = state_ids(snapshot);
    assert forall|k: int| 0 <= k < snapshot.len() implies r.contains(#[trigger] snapshot[k]) by {
        let i = choose|i: int| 0 <= i < state_ids(current).len() && state_ids(current)[i] == snapshot[k].id;
        assert(current[i].id == snapshot[k].id);
        ids.index_of_first_ensures(snapshot[k].id);
        assert(ids[k] == snapshot[k].id);
        assert(ids.contains(snapshot[k].id));
        let f = ids.index_of_first(snapshot[k].id)->0;
        assert(ids[f] == ids[k]);
        assert(f == k);
        assert(r[i] == snapshot[k]);
    }
    assert forall|i: int|
        0 <= i < r.len() implies (snapshot.contains(#[trigger] r[i]) || (!r[i].is_active && r[i].items.len() == 0)) by {
        ids.index_of_first_ensures(current[i].id);
        match ids.index_of_first(current[i].id) {
            Some(k) => {
                assert(r[i] == snapshot[k]);
            },
            None => {},
        }
    }
}

} // verus!
