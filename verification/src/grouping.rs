//! Grouping filenames by base name: the part of a name before the first
//! underscore (the whole name when there is none), and the count of names
//! sharing each base.

use vstd::prelude::*;
use crate::bytestr::{bytes_eq, copy_bytes};

verus! {

/// The underscore byte, the separator that ends a base name.
pub const SEP: u8 = 95;

/// Position of the first separator in `name`, or `name.len()` if none.
pub open spec fn sep_pos(name: Seq<u8>) -> int
    decreases name.len(),
{
    if name.len() == 0 {
        0
    } else if name.first() == SEP {
        0
    } else {
        1 + sep_pos(name.drop_first())
    }
}

/// The base name: everything before the first separator.
pub open spec fn base_of(name: Seq<u8>) -> Seq<u8> {
    name.subrange(0, sep_pos(name))
}

/// How many of `names` share the base `base`.
pub open spec fn count_of(names: Seq<Seq<u8>>, base: Seq<u8>) -> nat
    decreases names.len(),
{
    if names.len() == 0 {
        0
    } else {
        count_of(names.drop_last(), base) + if base_of(names.last()) == base {
            1nat
        } else {
            0nat
        }
    }
}

proof fn lemma_sep_pos_at(name: Seq<u8>, i: int)
    requires
        0 <= i <= name.len(),
        forall|k: int| 0 <= k < i ==> name[k] != SEP,
        i < name.len() ==> name[i] == SEP,
    ensures
        sep_pos(name) == i,
    decreases name.len(),
{
    if i == 0 {
    } else {
        let tail = name.drop_first();
        assert(forall|k: int| 0 <= k < i - 1 ==> tail[k] != SEP);
        assert(i - 1 < tail.len() ==> tail[i - 1] == SEP);
        lemma_sep_pos_at(tail, i - 1);
    }
}

/// A base that no name carries has count zero.
proof fn lemma_count_absent(names: Seq<Seq<u8>>, base: Seq<u8>)
    requires
        forall|k: int| 0 <= k < names.len() ==> base_of(names[k]) != base,
    ensures
        count_of(names, base) == 0,
    decreases names.len(),
{
    if names.len() > 0 {
        assert(names.last() == names[names.len() - 1]);
        assert(forall|k: int| 0 <= k < names.len() - 1 ==> names.drop_last()[k] == names[k]);
        lemma_count_absent(names.drop_last(), base);
    }
}

/// No base is shared by more names than there are.
proof fn lemma_count_le_len(names: Seq<Seq<u8>>, base: Seq<u8>)
    ensures
        count_of(names, base) <= names.len(),
    decreases names.len(),
{
    if names.len() > 0 {
        lemma_count_le_len(names.drop_last(), base);
    }
}

proof fn lemma_count_push(names: Seq<Seq<u8>>, more: Seq<u8>, base: Seq<u8>)
    ensures
        count_of(names.push(more), base) == count_of(names, base) + if base_of(more) == base {
            1nat
        } else {
            0nat
        },
{
    assert(names.push(more).drop_last() =~~= names);
    assert(names.push(more).last() == more);
}

/// Some group in `groups` carries the key `base`.
pub open spec fn has_base(groups: Seq<(Vec<u8>, usize)>, base: Seq<u8>) -> bool {
    exists|g: int| 0 <= g < groups.len() && groups[g].0@ == base
}

/// The base name of `name`, as a fresh byte string.
pub fn base_name_of(name: &Vec<u8>) -> (base: Vec<u8>)
    ensures
        base@ == base_of(name@),
{
    let mut i: usize = 0;
    while i < name.len() && name[i] != SEP
        invariant
            i <= name.len(),
            forall|k: int| 0 <= k < i ==> name@[k] != SEP,
        decreases name.len() - i,
    {
        i = i + 1;
    }
    proof {
        lemma_sep_pos_at(name@, i as int);
    }
    let mut base: Vec<u8> = Vec::new();
    let mut k: usize = 0;
    while k < i
        invariant
            k <= i <= name.len(),
            base@ =~= name@.subrange(0, k as int),
        decreases i - k,
    {
        base.push(name[k]);
        k = k + 1;
    }
    base
}

/// Groups `names` by base name: each base occurring among `names` appears
/// exactly once, with the number of names that share it.  The order of the
/// groups is left open.
pub fn count_by_base(names: &Vec<Vec<u8>>) -> (groups: Vec<(Vec<u8>, usize)>)
    ensures
        forall|g: int, h: int|
            0 <= g < h < groups@.len() ==> groups@[g].0@ != groups@[h].0@,
        forall|g: int|
            0 <= g < groups@.len() ==> groups@[g].1 == count_of(
                names.deep_view(),
                groups@[g].0@,
            ),
        forall|g: int| 0 <= g < groups@.len() ==> groups@[g].1 >= 1,
        forall|k: int|
            0 <= k < names@.len() ==> #[trigger] has_base(groups@, base_of(names.deep_view()[k])),
{
    let mut groups: Vec<(Vec<u8>, usize)> = Vec::new();
    let mut i: usize = 0;
    while i < names.len()
        invariant
            i <= names.len(),
            forall|g: int, h: int|
                0 <= g < h < groups@.len() ==> groups@[g].0@ != groups@[h].0@,
            forall|g: int|
                0 <= g < groups@.len() ==> groups@[g].1 == count_of(
                    names.deep_view().subrange(0, i as int),
                    groups@[g].0@,
                ),
            forall|g: int| 0 <= g < groups@.len() ==> groups@[g].1 >= 1,
            forall|k: int|
                0 <= k < i ==> #[trigger] has_base(groups@, base_of(names.deep_view()[k])),
        decreases names.len() - i,
    {
        let base = base_name_of(&names[i]);
        proof {
            assert(names.deep_view()[i as int] =~= names@[i as int]@);
            assert(names.deep_view().subrange(0, i as int + 1) =~= names.deep_view().subrange(
                0,
                i as int,
            ).push(names.deep_view()[i as int]));
            lemma_count_push(
                names.deep_view().subrange(0, i as int),
                names.deep_view()[i as int],
                base@,
            );
        }
        let mut g: usize = 0;
        let mut found: bool = false;
        while g < groups.len() && !found
            invariant
                g <= groups.len(),
                !found ==> forall|h: int| 0 <= h < g ==> groups@[h].0@ != base@,
                found ==> g >= 1 && g - 1 < groups@.len() && groups@[g - 1].0@ == base@,
            decreases groups.len() - g + if found {
                0int
            } else {
                1int
            },
        {
            if bytes_eq(&groups[g].0, &base) {
                found = true;
            }
            g = g + 1;
        }
        if found {
            let ghost old_groups = groups@;
            let pos = g - 1;
            let cnt = groups[pos].1;
            proof {
                lemma_count_le_len(names.deep_view().subrange(0, i as int), base@);
            }
            let key = copy_bytes(&groups[pos].0);
            groups[pos] = (key, cnt + 1);
            proof {
                let pre = names.deep_view().subrange(0, i as int);
                let pre2 = names.deep_view().subrange(0, i as int + 1);
                assert(groups@[pos as int].0@ == old_groups[pos as int].0@);
                assert forall|q: int| 0 <= q < groups@.len() implies groups@[q].1 == count_of(
                    pre2,
                    groups@[q].0@,
                ) by {
                    if q != pos {
                        assert(groups@[q] == old_groups[q]);
                        lemma_count_push(pre, names.deep_view()[i as int], groups@[q].0@);
                    }
                }
                assert forall|k: int| 0 <= k < i + 1 implies #[trigger] has_base(
                    groups@,
                    base_of(names.deep_view()[k]),
                ) by {
                    if k < i {
                        assert(has_base(old_groups, base_of(names.deep_view()[k])));
                        let w = choose|w: int|
                            0 <= w < old_groups.len() && old_groups[w].0@ == base_of(
                                names.deep_view()[k],
                            );
                        assert(groups@[w].0@ == base_of(names.deep_view()[k]));
                    } else {
                        assert(groups@[pos as int].0@ == base_of(names.deep_view()[k]));
                    }
                }
            }
        } else {
            let ghost old_groups = groups@;
            proof {
                let pre = names.deep_view().subrange(0, i as int);
                assert(forall|k: int|
                    0 <= k < old_groups.len() ==> old_groups[k].0@ != base@);
                assert forall|k: int|
                    0 <= k < pre.len() implies base_of(pre[k]) != base@ by {
                    assert(pre[k] == names.deep_view()[k]);
                    assert(has_base(old_groups, base_of(names.deep_view()[k])));
                    let q = choose|q: int|
                        0 <= q < old_groups.len() && old_groups[q].0@ == base_of(
                            names.deep_view()[k],
                        );
                }
                lemma_count_absent(pre, base@);
            }
            groups.push((base, 1));
            proof {
                let pre = names.deep_view().subrange(0, i as int);
                let pre2 = names.deep_view().subrange(0, i as int + 1);
                assert forall|q: int| 0 <= q < groups@.len() implies groups@[q].1 == count_of(
                    pre2,
                    groups@[q].0@,
                ) by {
                    if q < old_groups.len() {
                        assert(groups@[q] == old_groups[q]);
                        lemma_count_push(pre, names.deep_view()[i as int], groups@[q].0@);
                    }
                }
                assert forall|k: int| 0 <= k < i + 1 implies #[trigger] has_base(
                    groups@,
                    base_of(names.deep_view()[k]),
                ) by {
                    if k < i {
                        assert(has_base(old_groups, base_of(names.deep_view()[k])));
                        let w = choose|w: int|
                            0 <= w < old_groups.len() && old_groups[w].0@ == base_of(
                                names.deep_view()[k],
                            );
                        assert(groups@[w].0@ == base_of(names.deep_view()[k]));
                    } else {
                        assert(groups@[groups@.len() - 1].0@ == base_of(names.deep_view()[k]));
                    }
                }
            }
        }
        i = i + 1;
    }
    proof {
        assert(names.deep_view().subrange(0, names@.len() as int) =~~= names.deep_view());
    }
    groups
}

} // verus!
