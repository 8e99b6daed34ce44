//! Choosing a physical device, its queue family and its memory types from
//! the properties that Vulkan reports, as plain values.

use vstd::prelude::*;
use crate::vkraw::{
    queue_flags_contain, memory_flags_contain, graphics_queue_bit, compute_queue_bit,
    discrete_gpu_type, integrated_gpu_type, api_version_major, api_version_minor, make_api_version,
};

verus! {

/// What a queue family of a device offers.
#[derive(Clone, Copy)]
pub struct QueueFamily {
    pub queue_count: u32,
    pub flags: u32,
    pub present_support: bool,
}

/// A family that can draw and present to the surface.
pub open spec fn family_suitable(f: QueueFamily) -> bool {
    f.flags & 1 == 1 && f.present_support
}

/// No family before `(i, j)` (devices in order, then families) is suitable.
pub open spec fn none_before(devices: Seq<Vec<QueueFamily>>, i: int, j: int) -> bool {
    forall|a: int, b: int|
        0 <= a < devices.len() && 0 <= b < devices[a]@.len() && (a < i || (a == i && b < j))
            ==> !family_suitable(#[trigger] devices[a]@[b])
}

/// The first device, in order, with a family that can draw and present, and
/// the index of its first such family.
pub fn find_suitable_queue(devices: &Vec<Vec<QueueFamily>>) -> (r: Option<(usize, u32)>)
    requires
        forall|i: int| 0 <= i < devices.len() ==> #[trigger] devices@[i]@.len() <= u32::MAX,
    ensures
        match r {
            Some((i, j)) => i < devices@.len() && j < devices@[i as int]@.len()
                && family_suitable(devices@[i as int]@[j as int]) && none_before(devices@, i as int, j as int),
            None => none_before(devices@, devices@.len() as int, 0),
        },
{
    let graphics = graphics_queue_bit();
    let mut i: usize = 0;
    while i < devices.len()
        invariant
            graphics == 1,
            i <= devices.len(),
            none_before(devices@, i as int, 0),
            forall|i: int| 0 <= i < devices.len() ==> #[trigger] devices@[i]@.len() <= u32::MAX,
        decreases devices.len() - i,
    {
        let families = &devices[i];
        let mut j: usize = 0;
        while j < families.len()
            invariant
                graphics == 1,
                i < devices.len(),
                families == &devices@[i as int],
                j <= families.len(),
                families.len() <= u32::MAX,
                none_before(devices@, i as int, j as int),
            decreases families.len() - j,
        {
            let family = families[j];
            if queue_flags_contain(family.flags, graphics) && family.present_support {
                assert(family_suitable(devices@[i as int]@[j as int]));
                return Some((i, j as u32));
            }
            j = j + 1;
        }
        i = i + 1;
    }
    None
}

/// A queue family that does both graphics (bit 0) and compute (bit 1).
pub open spec fn graphics_and_compute(f: QueueFamily) -> bool {
    f.flags & 1 == 1 && f.flags & 2 == 2
}

/// The queue families with at least one queue.
pub open spec fn nonempty_families(families: Seq<QueueFamily>) -> Seq<QueueFamily> {
    families.filter(|f: QueueFamily| f.queue_count > 0)
}

/// A queue family that does graphics and compute and can present.
pub open spec fn does_both(f: QueueFamily) -> bool {
    graphics_and_compute(f) && f.present_support
}

/// `i` is the first of `fams` that does both.
pub open spec fn first_both_at(fams: Seq<QueueFamily>, i: int) -> bool {
    &&& 0 <= i < fams.len()
    &&& does_both(fams[i])
    &&& forall|j: int| 0 <= j < i ==> !does_both(#[trigger] fams[j])
}

/// The graphics and present indices that the last of `fams` offers, or
/// none when there is no family.
pub open spec fn last_flags(fams: Seq<QueueFamily>) -> (Option<u32>, Option<u32>) {
    if fams.len() == 0 {
        (None, None)
    } else {
        let last = (fams.len() - 1) as u32;
        let f = fams.last();
        (
            if graphics_and_compute(f) { Some(last) } else { None },
            if f.present_support { Some(last) } else { None },
        )
    }
}

/// The graphics and present queue indices that a device check picks among
/// the families with queues: both are the first family that does graphics
/// and compute and can present; without one, the last family gives its own
/// indices (or none); without any family, none.
pub open spec fn family_choice(fams: Seq<QueueFamily>) -> (Option<u32>, Option<u32>) {
    if exists|i: int| 0 <= i < fams.len() && does_both(#[trigger] fams[i]) {
        let i = choose|i: int| first_both_at(fams, i);
        (Some(i as u32), Some(i as u32))
    } else {
        last_flags(fams)
    }
}

/// The check as it runs: families are looked at one by one, each time
/// starting afresh, and the look stops at the first that does both.
spec fn family_scan(fams: Seq<QueueFamily>) -> (Option<u32>, Option<u32>)
    decreases fams.len(),
{
    if fams.len() == 0 {
        (None, None)
    } else {
        let prev = family_scan(fams.drop_last());
        if prev.0.is_some() && prev.1.is_some() {
            prev
        } else {
            last_flags(fams)
        }
    }
}

/// The scan gives the first family that does both, or the last family's
/// indices when none does.
proof fn lemma_scan(fams: Seq<QueueFamily>)
    ensures
        (forall|i: int| 0 <= i < fams.len() ==> !does_both(#[trigger] fams[i])) ==> family_scan(fams) == last_flags(fams),
        forall|i: int| first_both_at(fams, i) ==> family_scan(fams) == (Some(i as u32), Some(i as u32)),
    decreases fams.len(),
{
    if fams.len() > 0 {
        let pre = fams.drop_last();
        lemma_scan(pre);
        let n = fams.len() - 1;
        if exists|i: int| 0 <= i < pre.len() && does_both(#[trigger] pre[i]) {
            let i = choose|i: int| 0 <= i < pre.len() && does_both(#[trigger] pre[i]);
            lemma_first_exists(pre, i);
            let k = choose|k: int| first_both_at(pre, k);
            assert(first_both_at(fams, k)) by {
                assert forall|j: int| 0 <= j < k implies !does_both(#[trigger] fams[j]) by {
                    assert(fams[j] == pre[j]);
                }
            }
            assert forall|m: int| first_both_at(fams, m) implies m == k by {
                if m < k {
                    assert(pre[m] == fams[m]);
                } else if m > k {
                    assert(fams[k] == pre[k]);
                }
            }
        } else {
            assert(forall|i: int| 0 <= i < pre.len() ==> !does_both(#[trigger] pre[i]));
            if pre.len() > 0 {
                assert(!does_both(pre.last()));
            }
            assert forall|m: int| first_both_at(fams, m) implies m == n by {
                if m < n {
                    assert(pre[m] == fams[m]);
                }
            }
        }
    }
}

/// A family that does both has a first one before or at it.
proof fn lemma_first_exists(fams: Seq<QueueFamily>, i: int)
    requires
        0 <= i < fams.len(),
        does_both(fams[i]),
    ensures
        exists|k: int| first_both_at(fams, k),
    decreases i,
{
    if exists|j: int| 0 <= j < i && does_both(#[trigger] fams[j]) {
        let j = choose|j: int| 0 <= j < i && does_both(#[trigger] fams[j]);
        lemma_first_exists(fams, j);
    } else {
        assert(first_both_at(fams, i));
    }
}

/// The scan and the direct statement agree.
proof fn lemma_family_choice(fams: Seq<QueueFamily>)
    ensures
        family_scan(fams) == family_choice(fams),
{
    lemma_scan(fams);
    if exists|i: int| 0 <= i < fams.len() && does_both(#[trigger] fams[i]) {
        let i = choose|i: int| 0 <= i < fams.len() && does_both(#[trigger] fams[i]);
        lemma_first_exists(fams, i);
    }
}

/// The graphics and present queue indices of a device's families; see
/// `family_choice`.
pub fn check_queue_families(families: &Vec<QueueFamily>) -> (r: (Option<u32>, Option<u32>))
    requires
        families.len() <= u32::MAX,
    ensures
        r == family_choice(nonempty_families(families@)),
{
    let graphics = graphics_queue_bit();
    let compute = compute_queue_bit();
    let mut graphics_queue: Option<u32> = None;
    let mut present_queue: Option<u32> = None;
    let ghost mut seen: Seq<QueueFamily> = Seq::empty();
    let mut index: u32 = 0;
    let mut k: usize = 0;
    while k < families.len()
        invariant
            graphics == 1,
            compute == 2,
            k <= families.len(),
            families.len() <= u32::MAX,
            seen == nonempty_families(families@.subrange(0, k as int)),
            index == seen.len(),
            (graphics_queue, present_queue) == family_scan(seen),
        decreases families.len() - k,
    {
        let family = families[k];
        proof {
            let pre = families@.subrange(0, k + 1);
            assert(pre.drop_last() =~= families@.subrange(0, k as int));
            assert(pre.last() == family);
            reveal(Seq::filter);
            assert(nonempty_families(pre) == if family.queue_count > 0 {
                nonempty_families(families@.subrange(0, k as int)).push(family)
            } else {
                nonempty_families(families@.subrange(0, k as int))
            });
            lemma_filter_len(families@.subrange(0, k as int));
        }
        if family.queue_count > 0 {
            if graphics_queue.is_some() && present_queue.is_some() {
                proof {
                    let pre = families@.subrange(0, k + 1);
                    assert(family_scan(seen.push(family)) == family_scan(seen)) by {
                        assert(seen.push(family).drop_last() =~= seen);
                    }
                    assert(seen.push(family) == nonempty_families(pre));
                    lemma_choice_settled(families@, (k + 1) as int);
                    assert(families@.subrange(0, families@.len() as int) =~= families@);
                    lemma_family_choice(nonempty_families(families@));
                }
                return (graphics_queue, present_queue);
            }
            graphics_queue = None;
            present_queue = None;
            if queue_flags_contain(family.flags, graphics) && queue_flags_contain(family.flags, compute)
                && graphics_queue.is_none() {
                graphics_queue = Some(index);
            }
            if family.present_support && present_queue.is_none() {
                present_queue = Some(index);
            }
            proof {
                assert(seen.push(family).drop_last() =~= seen);
                seen = seen.push(family);
            }
            index = index + 1;
        }
        k = k + 1;
    }
    proof {
        assert(families@.subrange(0, families@.len() as int) =~= families@);
        lemma_family_choice(nonempty_families(families@));
    }
    (graphics_queue, present_queue)
}

proof fn lemma_filter_len(s: Seq<QueueFamily>)
    ensures
        nonempty_families(s).len() <= s.len(),
    decreases s.len(),
{
    reveal(Seq::filter);
    if s.len() > 0 {
        lemma_filter_len(s.drop_last());
    }
}

/// Once a family that does both has been found, the families after it do
/// not change the choice.
proof fn lemma_choice_settled(fams: Seq<QueueFamily>, k: int)
    requires
        0 <= k <= fams.len(),
        family_scan(nonempty_families(fams.subrange(0, k))).0.is_some(),
        family_scan(nonempty_families(fams.subrange(0, k))).1.is_some(),
    ensures
        family_scan(nonempty_families(fams.subrange(0, fams.len() as int)))
            == family_scan(nonempty_families(fams.subrange(0, k))),
    decreases fams.len() - k,
{
    if k < fams.len() {
        let pre = fams.subrange(0, k + 1);
        assert(pre.drop_last() =~= fams.subrange(0, k));
        reveal(Seq::filter);
        let s = nonempty_families(fams.subrange(0, k));
        if fams[k].queue_count > 0 {
            assert(nonempty_families(pre) == s.push(fams[k]));
            assert(s.push(fams[k]).drop_last() =~= s);
        } else {
            assert(nonempty_families(pre) == s);
        }
        lemma_choice_settled(fams, k + 1);
    }
}

/// The order of preference of a device type: discrete first, integrated
/// next, any other last.
pub fn device_rank(device_type: i32) -> (r: u32)
    ensures
        r == if device_type == 2 { 0u32 } else if device_type == 1 { 1u32 } else { 2u32 },
{
    if device_type == discrete_gpu_type() {
        0
    } else if device_type == integrated_gpu_type() {
        1
    } else {
        2
    }
}

/// A physical device as a selection by rank sees it: its rank (lower is
/// preferred) and whether it passed the device check.
#[derive(Clone, Copy)]
pub struct DeviceCandidate {
    pub rank: u32,
    pub suitable: bool,
}

/// Device `i` comes before device `j` once the devices are ordered by rank,
/// keeping their order within a rank.
pub open spec fn ranked_before(c: Seq<DeviceCandidate>, i: int, j: int) -> bool {
    c[i].rank < c[j].rank || (c[i].rank == c[j].rank && i < j)
}

/// The first suitable device once the devices are ordered by rank (the
/// order among devices of the same rank kept).
pub fn select_physical_device(candidates: &Vec<DeviceCandidate>) -> (r: Option<usize>)
    ensures
        match r {
            Some(i) => i < candidates.len() && candidates@[i as int].suitable && forall|j: int|
                0 <= j < candidates.len() && j != i && #[trigger] candidates@[j].suitable ==> ranked_before(candidates@, i as int, j),
            None => forall|j: int| 0 <= j < candidates.len() ==> !(#[trigger] candidates@[j].suitable),
        },
{
    let mut best: Option<usize> = None;
    let mut k: usize = 0;
    while k < candidates.len()
        invariant
            k <= candidates.len(),
            match best {
                Some(i) => i < k && candidates@[i as int].suitable && forall|j: int|
                    0 <= j < k && j != i && #[trigger] candidates@[j].suitable ==> ranked_before(candidates@, i as int, j),
                None => forall|j: int| 0 <= j < k ==> !(#[trigger] candidates@[j].suitable),
            },
        decreases candidates.len() - k,
    {
        let c = candidates[k];
        if c.suitable {
            match best {
                Some(i) => {
                    if c.rank < candidates[i].rank {
                        best = Some(k);
                    }
                },
                None => {
                    best = Some(k);
                },
            }
        }
        k = k + 1;
    }
    best
}

/// The queue family indices to create queues for: the graphics family and,
/// when it differs, the present family.
pub fn queue_index_list(graphics_queue_index: u32, present_queue_index: u32) -> (r: Vec<u32>)
    ensures
        r@ == if graphics_queue_index == present_queue_index {
            seq![graphics_queue_index]
        } else {
            seq![graphics_queue_index, present_queue_index]
        },
{
    let mut index_list = Vec::new();
    index_list.push(graphics_queue_index);
    if present_queue_index != graphics_queue_index {
        index_list.push(present_queue_index);
    }
    proof {
        assert(index_list@ =~= if graphics_queue_index == present_queue_index {
            seq![graphics_queue_index]
        } else {
            seq![graphics_queue_index, present_queue_index]
        });
    }
    index_list
}

/// Whether the swapchain images are shared between two queue families.
pub fn sharing_is_concurrent(graphics_queue_index: u32, present_queue_index: u32) -> (r: bool)
    ensures
        r == (graphics_queue_index != present_queue_index),
{
    graphics_queue_index != present_queue_index
}

/// A memory type index `i` fits the requirement bits `type_bits` and has
/// every property of `flag`.
pub open spec fn memory_type_fits(type_flags: Seq<u32>, type_bits: u32, flag: u32, i: int) -> bool {
    &&& (1u32 << (i as u32)) & type_bits != 0
    &&& type_flags[i] & flag == flag
}

/// The first of the first `type_count` memory types that fits the
/// requirement bits and has every property of `flag`.
pub fn find_memorytype_index(type_flags: &Vec<u32>, type_count: u32, type_bits: u32, flag: u32) -> (r: Option<u32>)
    requires
        type_count <= type_flags.len(),
        type_count <= 32,
    ensures
        match r {
            Some(i) => i < type_count && memory_type_fits(type_flags@, type_bits, flag, i as int)
                && forall|j: int| 0 <= j < i ==> !memory_type_fits(type_flags@, type_bits, flag, j),
            None => forall|j: int| 0 <= j < type_count ==> !memory_type_fits(type_flags@, type_bits, flag, j),
        },
{
    let mut index: u32 = 0;
    while index < type_count
        invariant
            index <= type_count,
            type_count <= type_flags.len(),
            type_count <= 32,
            forall|j: int| 0 <= j < index ==> !memory_type_fits(type_flags@, type_bits, flag, j),
        decreases type_count - index,
    {
        if (1u32 << index) & type_bits != 0 && memory_flags_contain(type_flags[index as usize], flag) {
            return Some(index);
        }
        index = index + 1;
    }
    None
}

/// The API version to ask for: the major and minor version that the loader
/// reports, or 1.0 where it reports none, with variant and patch zero.
pub fn api_version(reported: Option<u32>) -> (r: u32)
    ensures
        r == match reported {
            Some(v) => (((v >> 22u32) & 0x7fu32) << 22u32) | (((v >> 12u32) & 0x3ffu32) << 12u32),
            None => (1u32 << 22u32) | (0u32 << 12u32),
        },
{
    let (major, minor) = match reported {
        Some(version) => (api_version_major(version), api_version_minor(version)),
        None => (1, 0),
    };
    let r = make_api_version(0, major, minor, 0);
    proof {
        assert(((0u32 << 29u32) | (major << 22u32) | (minor << 12u32) | 0u32) == (major << 22u32) | (minor << 12u32)) by (bit_vector);
    }
    r
}

} // verus!
