//! Per-group decisions of the orchestrator: which action a group gets,
//! which directory entries belong to a group, and the name of a group's
//! output file.

use vstd::prelude::*;
use crate::bytestr::{is_name_prefix, starts_with_bytes, copy_bytes, append_bytes};

verus! {

/// What the orchestrator does with one group.
#[derive(PartialEq, Eq, Structural, Debug)]
pub enum GroupAction {
    /// The lone member file is renamed to the output name.
    Rename,
    /// The member files are merged into one output file.
    Merge,
}

/// A group with exactly one member is renamed; any other count is merged.
pub fn action_for(member_count: usize) -> (a: GroupAction)
    ensures
        a == (if member_count == 1 {
            GroupAction::Rename
        } else {
            GroupAction::Merge
        }),
{
    if member_count == 1 {
        GroupAction::Rename
    } else {
        GroupAction::Merge
    }
}

/// The names that start with `base`, in directory order.
pub open spec fn matching_names(names: Seq<Seq<u8>>, base: Seq<u8>) -> Seq<Seq<u8>>
    decreases names.len(),
{
    if names.len() == 0 {
        Seq::empty()
    } else {
        let rest = matching_names(names.drop_last(), base);
        if is_name_prefix(base, names.last()) {
            rest.push(names.last())
        } else {
            rest
        }
    }
}

/// The first name that starts with `base`, if any.
pub open spec fn first_matching(names: Seq<Seq<u8>>, base: Seq<u8>) -> Option<Seq<u8>>
    decreases names.len(),
{
    if names.len() == 0 {
        None
    } else if is_name_prefix(base, names.first()) {
        Some(names.first())
    } else {
        first_matching(names.drop_first(), base)
    }
}

/// The members of a group: every name that starts with the base name, in
/// the order the directory listed them.
pub fn select_members(names: &Vec<Vec<u8>>, base: &Vec<u8>) -> (members: Vec<Vec<u8>>)
    ensures
        members.deep_view() == matching_names(names.deep_view(), base@),
{
    let mut members: Vec<Vec<u8>> = Vec::new();
    let mut i: usize = 0;
    while i < names.len()
        invariant
            i <= names.len(),
            members.deep_view() == matching_names(names.deep_view().subrange(0, i as int), base@),
        decreases names.len() - i,
    {
        let ghost prev = members.deep_view();
        proof {
            let sub2 = names.deep_view().subrange(0, i as int + 1);
            assert(sub2.drop_last() =~~= names.deep_view().subrange(0, i as int));
            assert(sub2.last() =~= names@[i as int]@);
            assert(names.deep_view()[i as int] =~= names@[i as int]@);
        }
        if starts_with_bytes(&names[i], base) {
            let member = copy_bytes(&names[i]);
            members.push(member);
            proof {
                assert(members.deep_view() =~~= prev.push(names@[i as int]@));
            }
        }
        i = i + 1;
    }
    proof {
        assert(names.deep_view().subrange(0, names@.len() as int) =~~= names.deep_view());
    }
    members
}

/// The first directory entry of the group, the one a lone-member group is
/// renamed from.
pub fn first_match(names: &Vec<Vec<u8>>, base: &Vec<u8>) -> (r: Option<Vec<u8>>)
    ensures
        r.deep_view() == first_matching(names.deep_view(), base@),
{
    proof {
        assert(names.deep_view().subrange(0, names@.len() as int) =~~= names.deep_view());
    }
    let mut i: usize = 0;
    while i < names.len()
        invariant
            i <= names.len(),
            first_matching(names.deep_view(), base@) == first_matching(
                names.deep_view().subrange(i as int, names@.len() as int),
                base@,
            ),
        decreases names.len() - i,
    {
        let ghost sub = names.deep_view().subrange(i as int, names@.len() as int);
        proof {
            assert(sub.first() =~= names@[i as int]@);
            assert(sub.drop_first() =~= names.deep_view().subrange(
                i as int + 1,
                names@.len() as int,
            ));
        }
        if starts_with_bytes(&names[i], base) {
            let hit = copy_bytes(&names[i]);
            return Some(hit);
        }
        i = i + 1;
    }
    proof {
        assert(names.deep_view().subrange(names@.len() as int, names@.len() as int) =~= Seq::<
            Seq<u8>,
        >::empty());
    }
    None
}

/// The output filename of a group: the base name with the extension
/// appended.
pub fn output_name(base: &Vec<u8>, extension: &Vec<u8>) -> (name: Vec<u8>)
    ensures
        name@ == base@ + extension@,
{
    let mut name = copy_bytes(base);
    append_bytes(&mut name, extension);
    name
}

} // verus!
