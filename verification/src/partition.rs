//! The partitioner: splits the shard id range `[0, total_shards)` into
//! contiguous groups of at most `shards_per_replica` ids, one group per
//! worker replica, the last group carrying any remainder.

use vstd::prelude::*;

use crate::text::{dec_digits, push_dec_u32};

verus! {

/// One contiguous range of shard ids assigned to one worker replica.
#[derive(Clone, Debug, PartialEq, Eq)]
pub struct ShardGroup {
    pub deployment_name: String,
    pub shard_start: u32,
    pub shard_end: u32,
    pub replicas: i32,
}

/// The mathematical content of a `ShardGroup`.
#[verifier::ext_equal]
pub ghost struct GroupView {
    pub name: Seq<char>,
    pub start: u32,
    pub end: u32,
    pub replicas: i32,
}

impl View for ShardGroup {
    type V = GroupView;

    open spec fn view(&self) -> GroupView {
        GroupView {
            name: self.deployment_name@,
            start: self.shard_start,
            end: self.shard_end,
            replicas: self.replicas,
        }
    }
}

impl DeepView for ShardGroup {
    type V = GroupView;

    open spec fn deep_view(&self) -> GroupView {
        self.view()
    }
}

/// The deployment name of the group with the given index.
pub open spec fn group_name(index: nat) -> Seq<char> {
    "stratum-group-"@ + dec_digits(index)
}

/// How many groups a fleet of `total` shards needs at `per` shards each:
/// `total / per` rounded up.
pub open spec fn num_groups(total: int, per: int) -> int {
    (total + per - 1) / per
}

/// The exact shape of the partitioning: group `i` covers
/// `[i * per, min((i + 1) * per - 1, total - 1)]` and is named after its
/// index, with one replica each.
pub open spec fn wf_groups(groups: Seq<ShardGroup>, total: int, per: int) -> bool {
    &&& groups.len() == num_groups(total, per)
    &&& forall|i: int|
        0 <= i < groups.len() ==> (#[trigger] groups[i]).shard_start as int == i * per
    &&& forall|i: int|
        0 <= i < groups.len() ==> (#[trigger] groups[i]).shard_end as int == if i * per + per - 1
            <= total - 1 {
            i * per + per - 1
        } else {
            total - 1
        }
    &&& forall|i: int|
        0 <= i < groups.len() ==> (#[trigger] groups[i]).deployment_name@ == group_name(i as nat)
    &&& forall|i: int| 0 <= i < groups.len() ==> (#[trigger] groups[i]).replicas == 1
}

/// The deployment name of the group with index `index`.
pub fn group_name_string(index: u32) -> (s: String)
    ensures
        s@ == group_name(index as nat),
{
    let mut s = String::from_str("stratum-group-");
    push_dec_u32(&mut s, index);
    proof {
        assert(s@ =~= group_name(index as nat));
    }
    s
}

proof fn lemma_num_groups_from_bounds(total: int, per: int, k: int)
    requires
        per >= 1,
        k >= 0,
        k * per >= total,
        k * per < total + per,
    ensures
        k == num_groups(total, per),
{
    assert(k * per <= total + per - 1);
    assert(total + per - 1 < k * per + per);
    assert((total + per - 1) / per == k) by (nonlinear_arith)
        requires
            per >= 1,
            k >= 0,
            k * per <= total + per - 1,
            total + per - 1 < k * per + per,
    ;
}

/// True when shard id `s` falls in group `g`'s inclusive range.
pub open spec fn in_group(g: ShardGroup, s: int) -> bool {
    g.shard_start <= s <= g.shard_end
}

/// True when some group of the sequence holds shard id `s`.
pub open spec fn covered(groups: Seq<ShardGroup>, s: int) -> bool {
    exists|i: int| 0 <= i < groups.len() && in_group(groups[i], s)
}

proof fn lemma_num_groups_bounds(total: int, per: int)
    requires
        per >= 1,
        total >= 0,
    ensures
        num_groups(total, per) >= 0,
        num_groups(total, per) * per >= total,
        total > 0 ==> (num_groups(total, per) - 1) * per < total,
        total == 0 ==> num_groups(total, per) == 0,
{
    let q = (total + per - 1) / per;
    let r = (total + per - 1) % per;
    vstd::arithmetic::div_mod::lemma_fundamental_div_mod(total + per - 1, per);
    assert(total + per - 1 == per * q + r);
    vstd::arithmetic::div_mod::lemma_remainder_lower(total + per - 1, per);
    vstd::arithmetic::div_mod::lemma_remainder_upper(total + per - 1, per);
    assert(0 <= r < per) by {
        vstd::arithmetic::div_mod::lemma_mod_bound(total + per - 1, per);
    }
    assert(q >= 0) by (nonlinear_arith)
        requires
            per >= 1,
            per * q + r == total + per - 1,
            0 <= r < per,
            total >= 0,
    ;
    assert(q * per == total + per - 1 - r) by (nonlinear_arith)
        requires
            per * q + r == total + per - 1,
    ;
    assert((q - 1) * per == q * per - per) by (nonlinear_arith);
    if total == 0 {
        vstd::arithmetic::div_mod::lemma_basic_div(per - 1, per);
    }
}

/// The partitioning law: with at least one shard per replica, the groups
/// are in order, non-overlapping and contiguous, cover exactly
/// `[0, total)`, are each at most `per` ids long with every group but the
/// last exactly `per` long, and number `total / per` rounded up.
pub proof fn lemma_groups_partition(groups: Seq<ShardGroup>, total: int, per: int)
    requires
        per >= 1,
        total >= 0,
        wf_groups(groups, total, per),
    ensures
        groups.len() == num_groups(total, per),
        groups.len() > 0 ==> groups[0].shard_start == 0,
        groups.len() > 0 ==> groups[groups.len() - 1].shard_end as int == total - 1,
        forall|i: int|
            0 <= i < groups.len() ==> (#[trigger] groups[i]).shard_start
                <= groups[i].shard_end,
        forall|i: int|
            0 < i < groups.len() ==> (#[trigger] groups[i]).shard_start as int == groups[i
                - 1].shard_end as int + 1,
        forall|i: int, j: int|
            0 <= i < j < groups.len() ==> (#[trigger] groups[i]).shard_end < (
            #[trigger] groups[j]).shard_start,
        forall|i: int|
            0 <= i < groups.len() ==> (#[trigger] groups[i]).shard_end as int
                - groups[i].shard_start as int + 1 <= per,
        forall|i: int|
            0 <= i < groups.len() - 1 ==> (#[trigger] groups[i]).shard_end as int
                - groups[i].shard_start as int + 1 == per,
        forall|s: int| 0 <= s < total ==> #[trigger] covered(groups, s),
        forall|s: int| #[trigger] covered(groups, s) ==> 0 <= s < total,
{
    let len = groups.len() as int;
    lemma_num_groups_bounds(total, per);
    assert(len * per >= total);
    assert forall|i: int| 0 <= i < len implies #[trigger] (i * per) <= (len - 1) * per by {
        vstd::arithmetic::mul::lemma_mul_inequality(i, len - 1, per);
    }
    assert(len > 0 ==> (len - 1) * per < total);
    // each group's range is well formed and sits inside [0, total)
    assert forall|i: int| 0 <= i < len implies (#[trigger] groups[i]).shard_start
        <= groups[i].shard_end && groups[i].shard_end < total by {
        assert(i * per <= (len - 1) * per < total);
        assert(groups[i].shard_start as int == i * per);
    }
    // contiguity with the previous group
    assert forall|i: int| 0 < i < len implies (#[trigger] groups[i]).shard_start as int
        == groups[i - 1].shard_end as int + 1 by {
        assert(groups[i].shard_start as int == i * per);
        assert((i - 1) * per + per == i * per) by (nonlinear_arith);
        assert(i * per <= (len - 1) * per < total);
        assert(groups[i - 1].shard_end as int == i * per - 1);
    }
    // strict ordering of distinct groups
    assert forall|i: int, j: int| 0 <= i < j < len implies (#[trigger] groups[i]).shard_end < (
    #[trigger] groups[j]).shard_start by {
        assert(groups[i].shard_end as int <= i * per + per - 1);
        assert((i + 1) * per <= j * per) by {
            vstd::arithmetic::mul::lemma_mul_inequality(i + 1, j, per);
        }
        assert(i * per + per == (i + 1) * per) by (nonlinear_arith);
        assert(groups[j].shard_start as int == j * per);
    }
    // group sizes
    assert forall|i: int| 0 <= i < len - 1 implies (#[trigger] groups[i]).shard_end as int
        - groups[i].shard_start as int + 1 == per by {
        assert((i + 1) * per <= (len - 1) * per) by {
            vstd::arithmetic::mul::lemma_mul_inequality(i + 1, len - 1, per);
        }
        assert(i * per + per == (i + 1) * per) by (nonlinear_arith);
        assert(i * per + per - 1 <= total - 1);
        assert(groups[i].shard_end as int == i * per + per - 1);
    }
    // the last group ends at total - 1
    if len > 0 {
        assert(groups[len - 1].shard_end as int == if (len - 1) * per + per - 1 <= total - 1 {
            (len - 1) * per + per - 1
        } else {
            total - 1
        });
        assert((len - 1) * per + per == len * per) by (nonlinear_arith);
    }
    // every shard id below total is covered
    assert forall|s: int| 0 <= s < total implies #[trigger] covered(groups, s) by {
        let i = s / per;
        vstd::arithmetic::div_mod::lemma_fundamental_div_mod(s, per);
        vstd::arithmetic::div_mod::lemma_mod_bound(s, per);
        assert(s == per * i + s % per);
        assert(i >= 0) by (nonlinear_arith)
            requires
                per >= 1,
                s >= 0,
                s == per * i + s % per,
                0 <= s % per < per,
        ;
        assert(i < len) by {
            if i >= len {
                vstd::arithmetic::mul::lemma_mul_inequality(len, i, per);
                assert(len * per <= i * per);
                assert(i * per == per * i) by (nonlinear_arith);
                assert(s >= len * per);
                assert(s < total <= len * per);
            }
        }
        assert(groups[i].shard_start as int == i * per == per * i);
        assert(groups[i].shard_start <= s);
        assert(s <= per * i + per - 1);
        assert(i * per + per - 1 == per * i + per - 1) by (nonlinear_arith);
        assert(groups[i].shard_end as int >= s);
        assert(in_group(groups[i], s));
    }
    // and nothing outside [0, total) is
    assert forall|s: int| #[trigger] covered(groups, s) implies 0 <= s < total by {
        let i = choose|i: int| 0 <= i < groups.len() && in_group(groups[i], s);
        assert(groups[i].shard_end < total);
    }
}

/// Splits `[0, total_shards)` into groups of `shards_per_replica` ids,
/// in increasing order of shard id; the last group takes the remainder.
/// Zero total shards yields no groups at all.
pub fn calculate_shard_groups(total_shards: u32, shards_per_replica: u32) -> (groups: Vec<
    ShardGroup,
>)
    requires
        shards_per_replica >= 1,
    ensures
        wf_groups(groups@, total_shards as int, shards_per_replica as int),
        total_shards == 0 ==> groups@.len() == 0,
{
    let total = total_shards;
    let per = shards_per_replica;
    let mut groups: Vec<ShardGroup> = Vec::new();
    let mut current: u32 = 0;
    let mut index: u32 = 0;
    while current < total
        invariant
            per >= 1,
            index as int * per as int == current as int || (index as int * per as int >= total
                && current == total),
            current <= total,
            index <= total,
            total == 0 ==> index == 0,
            index >= 1 ==> (index as int - 1) * (per as int) < total as int,
            groups@.len() == index,
            forall|i: int|
                0 <= i < groups@.len() ==> (#[trigger] groups@[i]).shard_start as int == i
                    * per as int,
            forall|i: int|
                0 <= i < groups@.len() ==> (#[trigger] groups@[i]).shard_end as int == if i
                    * per as int + per - 1 <= total - 1 {
                    i * per as int + per - 1
                } else {
                    total - 1
                },
            forall|i: int|
                0 <= i < groups@.len() ==> (#[trigger] groups@[i]).deployment_name@ == group_name(
                    i as nat,
                ),
            forall|i: int| 0 <= i < groups@.len() ==> (#[trigger] groups@[i]).replicas == 1,
        decreases total - current,
    {
        let shard_end: u32 = if per - 1 <= total - 1 - current {
            current + (per - 1)
        } else {
            total - 1
        };
        proof {
            assert(index as int * per as int == current as int);
            assert((index + 1) as int * per as int == current as int + per as int) by (
            nonlinear_arith)
                requires
                    index as int * per as int == current as int,
            ;
        }
        proof {
            assert(index as int <= index as int * per as int) by (nonlinear_arith)
                requires
                    per >= 1,
                    index >= 0,
            ;
        }
        let name = group_name_string(index);
        groups.push(
            ShardGroup { deployment_name: name, shard_start: current, shard_end, replicas: 1 },
        );
        current = shard_end + 1;
        index = index + 1;
    }
    proof {
        if total == 0 {
            assert(index == 0);
            assert(num_groups(0, per as int) == 0) by {
                assert((per - 1) as int / per as int == 0) by (nonlinear_arith)
                    requires
                        per >= 1,
                ;
            }
        } else {
            assert(index as int * per as int >= total as int);
            if index as int * per as int == current as int {
                assert(current == total);
                assert((index as int - 1) * (per as int) == current as int - per as int) by (
                nonlinear_arith)
                    requires
                        index as int * per as int == current as int,
                ;
            } else {
                assert(current == total);
            }
            // the previous group ended strictly below total, so the count is tight
            assert(index >= 1);
            assert((index as int * per as int) < total as int + per as int) by (nonlinear_arith)
                requires
                    (index as int - 1) * (per as int) < total as int,
            ;
            lemma_num_groups_from_bounds(total as int, per as int, index as int);
        }
    }
    groups
}

} // verus!
