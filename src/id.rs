//! Integer ids and the stability groups that partition them.

use vstd::prelude::*;

verus! {

/// Integer id of a vertex.
pub type Id = u64;

/// First id of the non-master (volatile) group: ids below it are master ids.
pub const NON_MASTER_MIN: u64 = 0x0100_0000_0000_0000;

/// A stability class of ids.
///
/// `Master` ids belong to published history and are never renumbered.
/// `NonMaster` ids belong to draft history and may be discarded and
/// reassigned by a later build.
#[derive(Clone, Copy, Debug, PartialEq, Eq, Structural)]
pub enum Group {
    Master,
    NonMaster,
}

/// Lowest id of a group, as a mathematical integer.
pub open spec fn group_min(g: Group) -> int {
    match g {
        Group::Master => 0,
        Group::NonMaster => NON_MASTER_MIN as int,
    }
}

/// Highest id of a group, as a mathematical integer.
pub open spec fn group_max(g: Group) -> int {
    match g {
        Group::Master => NON_MASTER_MIN as int - 1,
        Group::NonMaster => u64::MAX as int,
    }
}

/// Whether `id` lies in the id range of `g`.
pub open spec fn in_group(g: Group, id: int) -> bool {
    group_min(g) <= id <= group_max(g)
}

/// The group whose range holds `id`.
pub open spec fn group_of(id: u64) -> Group {
    if id < NON_MASTER_MIN {
        Group::Master
    } else {
        Group::NonMaster
    }
}

impl Group {
    /// Both groups, master first.
    pub const ALL: [Group; 2] = [Group::Master, Group::NonMaster];

    /// Lowest id of the group.
    pub fn min_id(self) -> (r: Id)
        ensures
            r as int == group_min(self),
    {
        match self {
            Group::Master => 0,
            Group::NonMaster => NON_MASTER_MIN,
        }
    }

    /// Highest id of the group.
    pub fn max_id(self) -> (r: Id)
        ensures
            r as int == group_max(self),
    {
        match self {
            Group::Master => NON_MASTER_MIN - 1,
            Group::NonMaster => u64::MAX,
        }
    }

    /// The group that an id belongs to.
    pub fn of(id: Id) -> (r: Group)
        ensures
            r == group_of(id),
            in_group(r, id as int),
    {
        if id < NON_MASTER_MIN {
            Group::Master
        } else {
            Group::NonMaster
        }
    }
}

/// Every id belongs to exactly one group, and the two ranges do not overlap:
/// the master range ends right below the non-master range, which reaches the
/// largest id.
pub proof fn lemma_groups_partition(id: u64)
    ensures
        in_group(group_of(id), id as int),
        in_group(Group::Master, id as int) != in_group(Group::NonMaster, id as int),
        group_max(Group::Master) < group_min(Group::NonMaster),
        group_min(Group::Master) == 0,
        group_max(Group::NonMaster) == u64::MAX,
{
}

} // verus!
