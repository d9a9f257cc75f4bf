//! Grouping of an element's attributes by name.
//!
//! Attributes of one name are rendered as one attribute that holds all their
//! values. The grouping itself is done by `mt_dom`; this module states what
//! it returns and proves what the renderer needs of it.
use vstd::prelude::*;
use crate::vdom::Attribute;

verus! {

/// The names of a list of attributes, in order.
pub open spec fn names_of(attrs: Seq<Attribute>) -> Seq<Seq<char>> {
    attrs.map_values(|a: Attribute| a.name@)
}

/// The index of the first group among `groups` whose members carry `name`,
/// or `groups.len()` where there is none. A group's name is the name at its
/// first position.
pub open spec fn group_of(names: Seq<Seq<char>>, groups: Seq<Seq<usize>>, name: Seq<char>) -> int
    decreases groups.len(),
{
    if groups.len() == 0 {
        0
    } else if names[groups[0][0] as int] == name {
        0
    } else {
        1 + group_of(names, groups.drop_first(), name)
    }
}

/// The positions `0..n` of `names`, grouped by name: one group for each
/// distinct name, in the order in which the names first occur, each group
/// listing the positions of its name in increasing order.
pub open spec fn grouped(names: Seq<Seq<char>>, n: nat) -> Seq<Seq<usize>>
    decreases n,
{
    if n == 0 || n > names.len() {
        Seq::empty()
    } else {
        let before = grouped(names, (n - 1) as nat);
        let k = group_of(names, before, names[n - 1]);
        if k < before.len() {
            before.update(k, before[k].push((n - 1) as usize))
        } else {
            before.push(seq![(n - 1) as usize])
        }
    }
}

/// The groups of a whole attribute list.
pub open spec fn groups_of(attrs: Seq<Attribute>) -> Seq<Seq<usize>> {
    grouped(names_of(attrs), attrs.len())
}

/// Groups the positions of `attrs` by attribute name.
///
/// Calls `mt_dom::merge_attributes_of_same_name` on one attribute per
/// position, each named as the attribute at that position and holding that
/// position as its only value. The function walks its input in order, adds
/// the values of an attribute to the first merged attribute of the same name,
/// and starts a new merged attribute at the end where there is none. The
/// values of the merged attributes are therefore `groups_of(attrs@)`; this is
/// believed, not proved.
#[verifier::external_body]
pub(crate) fn merge_positions(attrs: &Vec<Attribute>) -> (groups: Vec<Vec<usize>>)
    ensures
        groups.deep_view() == groups_of(attrs@),
{
    let named: Vec<mt_dom::Attribute<(), &str, usize>> =
        attrs.iter().enumerate().map(|(i, a)| mt_dom::attr(a.name.as_str(), i)).collect();
    let refs: Vec<&mt_dom::Attribute<(), &str, usize>> = named.iter().collect();
    mt_dom::merge_attributes_of_same_name(&refs).into_iter().map(|m| m.value).collect()
}

/// `group_of` returns an index into `groups` or its length, and the group it
/// finds carries the name.
pub proof fn lemma_group_of_bounds(names: Seq<Seq<char>>, groups: Seq<Seq<usize>>, name: Seq<char>)
    ensures
        0 <= group_of(names, groups, name) <= groups.len(),
        group_of(names, groups, name) < groups.len() ==> names[groups[group_of(
            names,
            groups,
            name,
        )][0] as int] == name,
        forall|k: int|
            0 <= k < group_of(names, groups, name) ==> names[(#[trigger] groups[k])[0] as int]
                != name,
    decreases groups.len(),
{
    if groups.len() > 0 && names[groups[0][0] as int] != name {
        let rest = groups.drop_first();
        lemma_group_of_bounds(names, rest, name);
        let r = group_of(names, rest, name);
        assert forall|k: int| 0 <= k < 1 + r implies names[(#[trigger] groups[k])[0] as int]
            != name by {
            if k > 0 {
                assert(groups[k] == rest[k - 1]);
            }
        }
        if r < rest.len() {
            assert(groups[1 + r] == rest[r]);
        }
    }
}

/// Every group is non-empty, holds positions below `n` in increasing order,
/// and holds positions of one name only.
pub proof fn lemma_grouped_valid(names: Seq<Seq<char>>, n: nat)
    requires
        n <= names.len() <= usize::MAX,
    ensures
        forall|k: int|
            0 <= k < grouped(names, n).len() ==> (#[trigger] grouped(names, n)[k]).len() > 0,
        forall|k: int, j: int|
            0 <= k < grouped(names, n).len() && 0 <= j < grouped(names, n)[k].len() ==> (
            #[trigger] grouped(names, n)[k][j]) < n,
        forall|k: int, j: int|
            0 <= k < grouped(names, n).len() && 0 <= j < grouped(names, n)[k].len()
                ==> names[(#[trigger] grouped(names, n)[k][j]) as int] == names[grouped(
                names,
                n,
            )[k][0] as int],
    decreases n,
{
    if n > 0 {
        let before = grouped(names, (n - 1) as nat);
        lemma_grouped_valid(names, (n - 1) as nat);
        lemma_group_of_bounds(names, before, names[n - 1]);
        let k0 = group_of(names, before, names[n - 1]);
        let after = grouped(names, n);
        assert forall|k: int| 0 <= k < after.len() implies (#[trigger] after[k]).len() > 0 by {
            if k < before.len() {
                assert(before[k].len() > 0);
            }
        }
        assert forall|k: int, j: int| 0 <= k < after.len() && 0 <= j < after[k].len() implies (
        #[trigger] after[k][j]) < n && names[after[k][j] as int] == names[after[k][0] as int] by {
            if k < before.len() {
                assert(before[k].len() > 0);
                assert(after[k][0] == before[k][0]);
                if j < before[k].len() {
                    assert(after[k][j] == before[k][j]);
                    assert(before[k][j] < n - 1);
                } else {
                    assert(k == k0);
                    assert(after[k][j] == (n - 1) as usize);
                }
            } else {
                assert(after[k] == seq![(n - 1) as usize]);
                assert(j == 0);
            }
        }
    }
}

/// The positions among `0..n` at which `name` stands, in increasing
/// order.
pub open spec fn positions(names: Seq<Seq<char>>, name: Seq<char>, n: nat) -> Seq<usize>
    decreases n,
{
    if n == 0 || n > names.len() {
        Seq::empty()
    } else if names[n - 1] == name {
        positions(names, name, (n - 1) as nat).push((n - 1) as usize)
    } else {
        positions(names, name, (n - 1) as nat)
    }
}

/// Merging does not depend on what stands between the attributes of one
/// name: each group holds exactly the positions of its name, in the order
/// written, no two groups share a name, and every name has its group.
pub proof fn lemma_groups_are_positions(names: Seq<Seq<char>>, n: nat)
    requires
        n <= names.len() <= usize::MAX,
    ensures
        forall|k: int|
            0 <= k < grouped(names, n).len() ==> (#[trigger] grouped(names, n)[k]) == positions(
                names,
                names[grouped(names, n)[k][0] as int],
                n,
            ),
        forall|k: int, l: int|
            0 <= k < l < grouped(names, n).len() ==> names[(#[trigger] grouped(names, n)[k])[0] as int]
                != names[(#[trigger] grouped(names, n)[l])[0] as int],
        forall|i: int|
            0 <= i < n ==> group_of(names, grouped(names, n), #[trigger] names[i]) < grouped(
                names,
                n,
            ).len(),
    decreases n, 0nat,
{
    if n > 0 {
        let before = grouped(names, (n - 1) as nat);
        let after = grouped(names, n);
        let name = names[n - 1];
        lemma_groups_are_positions(names, (n - 1) as nat);
        lemma_grouped_valid(names, (n - 1) as nat);
        lemma_grouped_valid(names, n);
        lemma_group_of_bounds(names, before, name);
        let k0 = group_of(names, before, name);
        assert forall|k: int| 0 <= k < after.len() implies names[(#[trigger] after[k])[0] as int]
            == (if k < before.len() {
            names[before[k][0] as int]
        } else {
            name
        }) by {
            if k < before.len() {
                assert(before[k].len() > 0);
                assert(after[k][0] == before[k][0]);
            }
        }
        assert forall|k: int| 0 <= k < after.len() implies (#[trigger] after[k]) == positions(
            names,
            names[after[k][0] as int],
            n,
        ) by {
            if k < before.len() {
                assert(before[k].len() > 0);
                assert(before[k] == positions(names, names[before[k][0] as int], (n - 1) as nat));
            } else {
                lemma_positions_absent(names, name, before, (n - 1) as nat);
                assert(after[k] =~= seq![(n - 1) as usize]);
            }
        }
        assert forall|k: int, l: int| 0 <= k < l < after.len() implies names[(
        #[trigger] after[k])[0] as int] != names[(#[trigger] after[l])[0] as int] by {
            assert(before[k].len() > 0);
            if l < before.len() {
                assert(before[l].len() > 0);
            }
        }
        assert forall|i: int| 0 <= i < n implies group_of(names, after, #[trigger] names[i])
            < after.len() by {
            lemma_group_of_bounds(names, after, names[i]);
            let g = if i < n - 1 {
                lemma_group_of_bounds(names, before, names[i]);
                group_of(names, before, names[i])
            } else if k0 < before.len() {
                k0
            } else {
                before.len() as int
            };
            assert(names[after[g][0] as int] == names[i]);
        }
    }
}

/// Where no group carries `name`, `name` stands at no position that the
/// groups cover.
proof fn lemma_positions_absent(
    names: Seq<Seq<char>>,
    name: Seq<char>,
    groups: Seq<Seq<usize>>,
    n: nat,
)
    requires
        n <= names.len() <= usize::MAX,
        groups == grouped(names, n),
        group_of(names, groups, name) == groups.len(),
    ensures
        positions(names, name, n) == Seq::<usize>::empty(),
    decreases n, 1nat,
{
    lemma_groups_are_positions(names, n);
    lemma_group_of_bounds(names, groups, name);
    lemma_no_position(names, name, n, n);
}

/// Where `name` stands at none of the positions `0..n`, it has no
/// positions among the first `m` of them.
proof fn lemma_no_position(names: Seq<Seq<char>>, name: Seq<char>, n: nat, m: nat)
    requires
        m <= n <= names.len() <= usize::MAX,
        forall|i: int|
            0 <= i < n ==> group_of(names, grouped(names, n), #[trigger] names[i]) < grouped(
                names,
                n,
            ).len(),
        group_of(names, grouped(names, n), name) == grouped(names, n).len(),
    ensures
        positions(names, name, m) == Seq::<usize>::empty(),
    decreases m,
{
    if m > 0 {
        lemma_no_position(names, name, n, (m - 1) as nat);
        assert(group_of(names, grouped(names, n), names[m - 1]) < grouped(names, n).len());
    }
}

/// Where `name` stands at the positions `p` and `q` and nowhere else, its
/// positions are `p` and `q`.
pub proof fn lemma_positions_pair(names: Seq<Seq<char>>, name: Seq<char>, p: int, q: int, n: nat)
    requires
        0 <= p < q < names.len() <= usize::MAX,
        n <= names.len(),
        forall|i: int| 0 <= i < names.len() ==> (#[trigger] names[i] == name <==> i == p || i == q),
    ensures
        positions(names, name, n) == (if n <= p {
            Seq::<usize>::empty()
        } else if n <= q {
            seq![p as usize]
        } else {
            seq![p as usize, q as usize]
        }),
    decreases n,
{
    if n > 0 {
        lemma_positions_pair(names, name, p, q, (n - 1) as nat);
        assert(names[n - 1] == name <==> n - 1 == p || n - 1 == q);
        assert(positions(names, name, n) =~= (if n <= p {
            Seq::<usize>::empty()
        } else if n <= q {
            seq![p as usize]
        } else {
            seq![p as usize, q as usize]
        }));
    }
}

} // verus!
