//! Layouts of groups: files gathered by kind or by age, each group with its
//! member files inside.

use crate::error::CoreError;
use crate::scan::sums::{saturated, sum};
use vstd::prelude::*;

verus! {

/// A file of a group.
#[derive(Debug, Clone, Copy, PartialEq, Eq, Structural)]
pub struct Member {
    /// The file.
    pub id: u32,
    /// Its size in bytes.
    pub size: u64,
}

/// Files that belong together.
#[derive(Debug, Clone, PartialEq, Eq)]
pub struct Group {
    /// Id that stands for the group.
    pub id: u32,
    /// Name of the group.
    pub name: String,
    /// Size of its files together.
    pub size: u64,
    /// Colour, three bytes.
    pub color: u32,
    /// The files, largest first.
    pub members: Vec<Member>,
}

/// A group as the legend shows it.
#[derive(Debug, Clone, PartialEq, Eq)]
pub struct GroupDesc {
    /// Id that stands for the group.
    pub id: u32,
    /// Name of the group.
    pub name: String,
    /// Colour, three bytes.
    pub color: u32,
    /// Size of its files together.
    pub size: u64,
}

/// The legend's row says what the group is.
pub open spec fn describes(desc: GroupDesc, group: Group) -> bool {
    desc.id == group.id && desc.name == group.name && desc.color == group.color && desc.size
        == group.size
}

/// The legend: one row per group, in their order.
pub fn group_descs(groups: &[Group]) -> (descs: Vec<GroupDesc>)
    ensures
        descs@.len() == groups@.len(),
        forall|k: int| 0 <= k < descs@.len() ==> describes(#[trigger] descs@[k], groups@[k]),
{
    let mut descs: Vec<GroupDesc> = Vec::new();
    let mut k: usize = 0;
    while k < groups.len()
        invariant
            k <= groups@.len(),
            descs@.len() == k,
            forall|n: int| 0 <= n < k ==> describes(#[trigger] descs@[n], groups@[n]),
        decreases groups@.len() - k,
    {
        let group: &Group = &groups[k];
        descs.push(
            GroupDesc {
                id: group.id,
                name: group.name.clone(),
                color: group.color,
                size: group.size,
            },
        );
        k = k + 1;
    }
    descs
}

/// The sizes of groups by position.
pub open spec fn group_sizes(groups: Seq<Group>) -> spec_fn(int) -> nat {
    |k: int| groups[k].size as nat
}

/// The sizes of members by position.
pub open spec fn member_sizes(members: Seq<Member>) -> spec_fn(int) -> nat {
    |k: int| members[k].size as nat
}

/// The sizes of all groups together; the sum saturates.
pub fn groups_total(groups: &[Group]) -> (total: u64)
    ensures
        total == saturated(sum(group_sizes(groups@), 0, groups@.len() as int)),
{
    let mut total: u64 = 0;
    let mut k: usize = 0;
    while k < groups.len()
        invariant
            k <= groups@.len(),
            total == saturated(sum(group_sizes(groups@), 0, k as int)),
        decreases groups@.len() - k,
    {
        total = total.saturating_add(groups[k].size);
        k = k + 1;
    }
    total
}

/// The sizes of the members together; the sum saturates.
pub fn members_total(members: &[Member]) -> (total: u64)
    ensures
        total == saturated(sum(member_sizes(members@), 0, members@.len() as int)),
{
    let mut total: u64 = 0;
    let mut k: usize = 0;
    while k < members.len()
        invariant
            k <= members@.len(),
            total == saturated(sum(member_sizes(members@), 0, k as int)),
        decreases members@.len() - k,
    {
        total = total.saturating_add(members[k].size);
        k = k + 1;
    }
    total
}

/// What a layout of groups wants to know next.
#[derive(Debug, Clone, Copy, PartialEq, Eq, Structural)]
pub enum GroupAsk {
    /// Is there room for this group, and for its members inside?
    Group {
        /// Position of the group.
        index: usize,
    },
    /// Is there room for this member of the group that was drawn last?
    Member {
        /// Position of the group.
        group: usize,
        /// Position of the member.
        index: usize,
    },
    /// Nothing: everything is drawn.
    Done,
}

/// Groups that are being laid out.
#[derive(Debug, Clone, Copy, PartialEq, Eq, Structural)]
pub struct GroupWalk {
    /// Position of the group that is next, or whose members are.
    pub group: usize,
    /// Position of the member that is next.
    pub member: Option<usize>,
    /// So many members of the group are looked at.
    pub shown: usize,
    /// Cells drawn so far.
    pub used: usize,
    /// Cells that may be drawn.
    pub budget: usize,
    /// Something was left out for want of cells.
    pub truncated: bool,
    /// A cell too many is an error; otherwise the layout stops before it.
    pub strict: bool,
}

/// Where a layout of groups stands once finished groups are left. A layout that
/// is not strict stops where no cell may be drawn any more.
pub open spec fn resting(walk: GroupWalk, groups: Seq<Group>) -> GroupWalk {
    let past = match walk.member {
        Some(m) => if m >= walk.shown {
            GroupWalk { group: (walk.group + 1) as usize, member: None, ..walk }
        } else if !walk.strict && walk.used >= walk.budget {
            GroupWalk {
                group: (walk.group + 1) as usize,
                member: None,
                truncated: true,
                ..walk
            }
        } else {
            walk
        },
        None => walk,
    };
    if past.member is None && past.group < groups.len() && !past.strict && past.used >= past.budget {
        GroupWalk { group: groups.len() as usize, truncated: true, ..past }
    } else {
        past
    }
}

impl GroupWalk {
    /// The position is one of a group or behind them all, and a member that is
    /// next exists. Unless the layout is strict there is room for what is next.
    pub open spec fn wf(&self, groups: Seq<Group>) -> bool {
        &&& self.group <= groups.len() <= usize::MAX
        &&& match self.member {
            Some(m) => self.group < groups.len() && m < self.shown
                <= groups[self.group as int].members@.len() && (!self.strict ==> self.used
                < self.budget),
            None => self.group < groups.len() && !self.strict ==> self.used < self.budget,
        }
    }

    /// A cell more would be one too many.
    pub open spec fn is_full(&self) -> bool {
        self.strict && self.used >= self.budget
    }

    /// The layout, ended before its time.
    pub open spec fn ended(self, groups: Seq<Group>) -> GroupWalk {
        GroupWalk { group: groups.len() as usize, member: None, ..self }
    }

    /// Start with `used` cells drawn.
    pub fn start(groups: &[Group], used: usize, budget: usize, strict: bool) -> (walk: Self)
        ensures
            walk.wf(groups@),
            starts_groups(groups@, used, budget, strict, walk),
    {
        let walk: GroupWalk = GroupWalk {
            group: 0,
            member: None,
            shown: 0,
            used,
            budget,
            truncated: false,
            strict,
        };
        walk.rest(groups)
    }

    /// What the layout wants to know next.
    pub fn ask(&self, groups: &[Group]) -> (ask: GroupAsk)
        requires
            self.wf(groups@),
        ensures
            ask == match self.member {
                Some(index) => GroupAsk::Member { group: self.group, index },
                None => if self.group < groups@.len() {
                    GroupAsk::Group { index: self.group }
                } else {
                    GroupAsk::Done
                },
            },
    {
        match self.member {
            Some(index) => GroupAsk::Member { group: self.group, index },
            None => {
                if self.group < groups.len() {
                    GroupAsk::Group { index: self.group }
                } else {
                    GroupAsk::Done
                }
            },
        }
    }

    /// Draw the group that is next, if there is room for it, and go on with the
    /// first `members` of its members, or with the next group.
    ///
    /// # Errors
    /// [`CoreError::TooManyCells`] when the layout is strict and the group would be
    /// a cell too many. The layout ends there.
    pub fn reply_group(&mut self, groups: &[Group], drawn: bool, members: usize) -> (answer: Result<
        (),
        CoreError,
    >)
        requires
            old(self).wf(groups@),
            old(self).member is None,
            old(self).group < groups@.len(),
        ensures
            final(self).wf(groups@),
            if drawn && old(self).is_full() {
                &&& answer == Err::<(), CoreError>(CoreError::TooManyCells)
                &&& *final(self) == old(self).ended(groups@)
            } else {
                &&& answer is Ok
                &&& *final(self) == after_group(*old(self), groups@, drawn, members)
            },
    {
        if drawn && self.strict && self.used >= self.budget {
            self.group = groups.len();
            return Err(CoreError::TooManyCells);
        }
        let mut next: GroupWalk = *self;
        if drawn {
            next.used = next.used + 1;
        }
        if drawn {
            let count: usize = groups[next.group].members.len();
            next.member = Some(0);
            next.shown = if members < count {
                members
            } else {
                count
            };
        } else {
            next.group = next.group + 1;
        }
        *self = next.rest(groups);
        Ok(())
    }

    /// Draw the member that is next, if there is room for it, and go on.
    ///
    /// # Errors
    /// [`CoreError::TooManyCells`] when the layout is strict and the member would
    /// be a cell too many. The layout ends there.
    pub fn reply_member(&mut self, groups: &[Group], drawn: bool) -> (answer: Result<(), CoreError>)
        requires
            old(self).wf(groups@),
            old(self).member is Some,
        ensures
            final(self).wf(groups@),
            if drawn && old(self).is_full() {
                &&& answer == Err::<(), CoreError>(CoreError::TooManyCells)
                &&& *final(self) == old(self).ended(groups@)
            } else {
                &&& answer is Ok
                &&& *final(self) == after_member(*old(self), groups@, drawn)
            },
    {
        if drawn && self.strict && self.used >= self.budget {
            self.group = groups.len();
            self.member = None;
            return Err(CoreError::TooManyCells);
        }
        let mut next: GroupWalk = *self;
        if drawn {
            next.used = next.used + 1;
        }
        let index: usize = next.member.unwrap();
        next.member = Some(index + 1);
        *self = next.rest(groups);
        Ok(())
    }

    fn rest(self, groups: &[Group]) -> (walk: Self)
        requires
            self.group <= groups@.len(),
            self.member is Some ==> self.group < groups@.len() && self.shown
                <= groups@[self.group as int].members@.len(),
        ensures
            walk == resting(self, groups@),
            walk.wf(groups@),
    {
        assert(groups@.len() == groups.len());
        let mut walk: GroupWalk = self;
        match walk.member {
            Some(m) => {
                if m >= walk.shown {
                    walk.group = walk.group + 1;
                    walk.member = None;
                } else if !walk.strict && walk.used >= walk.budget {
                    walk.group = walk.group + 1;
                    walk.member = None;
                    walk.truncated = true;
                }
            },
            None => {},
        }
        if walk.member.is_none() && walk.group < groups.len() && !walk.strict && walk.used
            >= walk.budget {
            walk.group = groups.len();
            walk.truncated = true;
        }
        walk
    }
}

/// `walk` starts laying out `groups` with `used` cells drawn.
pub open spec fn starts_groups(
    groups: Seq<Group>,
    used: usize,
    budget: usize,
    strict: bool,
    walk: GroupWalk,
) -> bool {
    walk == resting(
        GroupWalk {
            group: 0,
            member: None,
            shown: 0,
            used,
            budget,
            truncated: false,
            strict,
        },
        groups,
    )
}

/// What a group that is drawn or not, with room for so many members, makes of
/// `walk`.
pub open spec fn after_group(
    walk: GroupWalk,
    groups: Seq<Group>,
    drawn: bool,
    members: usize,
) -> GroupWalk {
    let used: usize = if drawn {
        (walk.used + 1) as usize
    } else {
        walk.used
    };
    resting(
        if drawn {
            let count = groups[walk.group as int].members@.len();
            GroupWalk {
                used,
                member: Some(0),
                shown: if members < count {
                    members
                } else {
                    count as usize
                },
                ..walk
            }
        } else {
            GroupWalk { used, group: (walk.group + 1) as usize, ..walk }
        },
        groups,
    )
}

/// What a member that is drawn or not makes of `walk`.
pub open spec fn after_member(walk: GroupWalk, groups: Seq<Group>, drawn: bool) -> GroupWalk {
    let used: usize = if drawn {
        (walk.used + 1) as usize
    } else {
        walk.used
    };
    resting(GroupWalk { used, member: Some((walk.member->0 + 1) as usize), ..walk }, groups)
}

/// A layout of groups keeps its budget once it is within it: every group and
/// every member that is drawn, and is no cell too many, finds room.
pub proof fn law_groups_keep_budget(
    walk: GroupWalk,
    groups: Seq<Group>,
    drawn: bool,
    members: usize,
)
    requires
        walk.wf(groups),
        walk.used <= walk.budget,
        !(drawn && walk.is_full()),
    ensures
        walk.member is None && walk.group < groups.len() ==> after_group(
            walk,
            groups,
            drawn,
            members,
        ).used <= walk.budget,
        walk.member is Some ==> after_member(walk, groups, drawn).used <= walk.budget,
        walk.ended(groups).used <= walk.budget,
{
}

/// A layout of groups that stops for want of cells says so, and from then on
/// keeps saying so.
pub proof fn law_groups_say_what_they_leave_out(walk: GroupWalk, groups: Seq<Group>)
    requires
        walk.group <= groups.len() <= usize::MAX,
        walk.member is Some ==> walk.group < groups.len(),
    ensures
        walk.truncated ==> resting(walk, groups).truncated,
        !resting(walk, groups).truncated && walk.member is Some && walk.member->0 < walk.shown
            ==> resting(walk, groups) == walk,
        !resting(walk, groups).truncated && walk.member is None ==> resting(walk, groups) == walk,
{
}

/// A layout of groups that starts has its first group next and nothing drawn but
/// what was. Unless it is strict it stops at once, and says so, where there are
/// groups and no cell may be drawn.
pub proof fn law_groups_start_with_the_first(
    groups: Seq<Group>,
    used: usize,
    budget: usize,
    strict: bool,
    walk: GroupWalk,
)
    requires
        groups.len() <= usize::MAX,
        starts_groups(groups, used, budget, strict, walk),
    ensures
        walk.used == used,
        walk.budget == budget,
        walk.strict == strict,
        walk.member is None,
        walk.truncated <==> groups.len() > 0 && !strict && used >= budget,
        walk.truncated ==> walk.group == groups.len(),
        !walk.truncated ==> walk.group == 0,
{
}

/// Behind a group that is drawn and has room inside come its members from the
/// first on, as many as have room; behind any other comes the next group. What is
/// drawn counts as a cell.
pub proof fn law_groups_go_in_order(
    walk: GroupWalk,
    groups: Seq<Group>,
    drawn: bool,
    members: usize,
)
    requires
        walk.wf(groups),
        walk.member is None,
        walk.group < groups.len(),
        !(drawn && walk.strict && walk.used >= walk.budget),
    ensures
        ({
            let next = after_group(walk, groups, drawn, members);
            let count = groups[walk.group as int].members@.len();
            &&& next.used == walk.used + if drawn {
                1int
            } else {
                0
            }
            &&& next.budget == walk.budget && next.strict == walk.strict
            &&& walk.truncated ==> next.truncated
            &&& next.truncated && !walk.truncated ==> !walk.strict && next.used >= next.budget
                && next.member is None && next.group == groups.len()
            &&& !next.truncated ==> if drawn && members > 0 && count > 0 {
                &&& next.group == walk.group
                &&& next.member == Some(0usize)
                &&& next.shown <= members && next.shown <= count
                &&& next.shown == members || next.shown == count
            } else {
                next.group == walk.group + 1 && next.member is None
            }
        }),
{
}

/// Behind a member comes the next one that has room, and behind the last of them
/// the next group. What is drawn counts as a cell.
pub proof fn law_members_go_in_order(walk: GroupWalk, groups: Seq<Group>, drawn: bool)
    requires
        walk.wf(groups),
        walk.member is Some,
        !(drawn && walk.strict && walk.used >= walk.budget),
    ensures
        ({
            let next = after_member(walk, groups, drawn);
            &&& next.used == walk.used + if drawn {
                1int
            } else {
                0
            }
            &&& next.budget == walk.budget && next.strict == walk.strict
            &&& walk.truncated ==> next.truncated
            &&& next.truncated && !walk.truncated ==> !walk.strict && next.used >= next.budget
                && next.member is None && next.group == groups.len()
            &&& !next.truncated ==> if walk.member->0 + 1 < walk.shown {
                &&& next.group == walk.group
                &&& next.member is Some && next.member->0 == walk.member->0 + 1
                &&& next.shown == walk.shown
            } else {
                next.group == walk.group + 1 && next.member is None
            }
        }),
{
}

/// Cells run out where one is left to be looked at and as many were drawn as may
/// be: then, and only then, is something left out.
pub proof fn law_groups_stop_when_cells_run_out(
    walk: GroupWalk,
    groups: Seq<Group>,
    drawn: bool,
    members: usize,
)
    requires
        walk.wf(groups),
        walk.member is None,
        walk.group < groups.len(),
        !walk.strict,
        !walk.truncated,
    ensures
        ({
            let next = after_group(walk, groups, drawn, members);
            let more = walk.group + 1 < groups.len() || (drawn && members > 0
                && groups[walk.group as int].members@.len() > 0);
            next.truncated <==> more && next.used >= next.budget
        }),
{
}

/// The same holds among the members of a group.
pub proof fn law_members_stop_when_cells_run_out(walk: GroupWalk, groups: Seq<Group>, drawn: bool)
    requires
        walk.wf(groups),
        walk.member is Some,
        !walk.strict,
        !walk.truncated,
    ensures
        ({
            let next = after_member(walk, groups, drawn);
            let more = walk.group + 1 < groups.len() || walk.member->0 + 1 < walk.shown;
            next.truncated <==> more && next.used >= next.budget
        }),
{
}

/// A strict layout refuses a cell exactly where as many were drawn as may be; it
/// then ends with what was drawn.
pub proof fn law_strict_groups_refuse_the_cell_too_many(walk: GroupWalk, groups: Seq<Group>)
    requires
        groups.len() <= usize::MAX,
    ensures
        walk.is_full() <==> walk.strict && walk.used >= walk.budget,
        walk.ended(groups).group == groups.len(),
        walk.ended(groups).member is None,
        walk.ended(groups).used == walk.used,
        walk.ended(groups).truncated == walk.truncated,
{
}

/// A row of the legend has the group's id, name, colour and size.
pub proof fn law_legend_says_what_the_group_is(desc: GroupDesc, group: Group)
    ensures
        describes(desc, group) <==> {
            &&& desc.id == group.id
            &&& desc.name@ == group.name@ && desc.name == group.name
            &&& desc.color == group.color
            &&& desc.size == group.size
        },
{
}

/// The size of a group counts once in the total of all, and that of a member once
/// in its group's.
pub proof fn law_sizes_count_once(groups: Seq<Group>, members: Seq<Member>, k: int)
    ensures
        group_sizes(groups)(k) == groups[k].size,
        member_sizes(members)(k) == members[k].size,
        0 <= k < groups.len() ==> sum(group_sizes(groups), 0, k + 1) == sum(
            group_sizes(groups),
            0,
            k,
        ) + groups[k].size,
        0 <= k < members.len() ==> sum(member_sizes(members), 0, k + 1) == sum(
            member_sizes(members),
            0,
            k,
        ) + members[k].size,
{
}

} // verus!
