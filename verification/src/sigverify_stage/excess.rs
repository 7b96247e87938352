//! Discarding packets in excess, fairly among their senders.

use crate::sigverify_stage::{Packet, PacketBatch};
use std::collections::HashMap;
use vstd::prelude::*;

verus! {

broadcast use vstd::std_specs::hash::group_hash_axioms;

/// The senders of the packets of a batch.
pub open spec fn batch_senders(batch: PacketBatch) -> Seq<u128> {
    Seq::new(batch.packets@.len(), |i: int| batch.packets@[i].meta.addr)
}

/// The senders of all packets, in the order in which they came.
pub open spec fn senders(batches: Seq<PacketBatch>) -> Seq<u128>
    decreases batches.len(),
{
    if batches.len() == 0 {
        Seq::empty()
    } else {
        senders(batches.drop_last()) + batch_senders(batches.last())
    }
}

/// How many packets came before those of a batch.
pub open spec fn offset(batches: Seq<PacketBatch>, batch: int) -> nat {
    senders(batches.take(batch)).len()
}

/// How often `x` occurs.
pub open spec fn occurrences<T>(s: Seq<T>, x: T) -> nat
    decreases s.len(),
{
    if s.len() == 0 {
        0
    } else {
        occurrences(s.drop_last(), x) + if s.last() == x {
            1nat
        } else {
            0
        }
    }
}

/// How many packets of the same sender came before packet `i`.
pub open spec fn earlier(senders: Seq<u128>, i: int) -> nat {
    occurrences(senders.take(i), senders[i])
}

/// A choice of packets is fair when no packet is left out while another is kept that had more
/// packets of its own sender before it. So each sender keeps what it sent first, and whoever loses
/// a packet keeps at most one packet less than any other.
pub open spec fn fair(senders: Seq<u128>, kept: Seq<bool>) -> bool {
    forall|i: int, j: int|
        #![trigger kept[i], kept[j]]
        0 <= i < kept.len() && 0 <= j < kept.len() && kept[i] && !kept[j] ==> earlier(senders, i)
            <= earlier(senders, j)
}

/// The same packet, discarded if it is not kept.
pub open spec fn kept_or_discarded(packet: Packet, kept: bool, r: Packet) -> bool {
    &&& r.meta.addr == packet.meta.addr
    &&& r.meta.discard == (packet.meta.discard || !kept)
}

/// The same batches, but that the packets are discarded that are not kept.
pub open spec fn marked(
    before: Seq<PacketBatch>,
    after: Seq<PacketBatch>,
    kept: Seq<bool>,
) -> bool {
    &&& after.len() == before.len()
    &&& kept.len() == senders(before).len()
    &&& forall|b: int|
        0 <= b < before.len() ==> (#[trigger] after[b]).packets@.len() == before[b].packets@.len()
    &&& forall|b: int, p: int|
        0 <= b < before.len() && 0 <= p < before[b].packets@.len() ==> kept_or_discarded(
            before[b].packets@[p],
            kept[offset(before, b) + p],
            #[trigger] after[b].packets@[p],
        )
}

/// A fair choice of so many packets is kept, and the others are discarded.
pub open spec fn fairly_discarded(
    before: Seq<PacketBatch>,
    after: Seq<PacketBatch>,
    max_packets: nat,
) -> bool {
    exists|kept: Seq<bool>|
        {
            &&& #[trigger] marked(before, after, kept)
            &&& fair(senders(before), kept)
            &&& occurrences(kept, true) == max_packets
        }
}

proof fn lemma_occurrences_bound<T>(s: Seq<T>, x: T)
    ensures
        occurrences(s, x) <= s.len(),
    decreases s.len(),
{
    if s.len() > 0 {
        lemma_occurrences_bound(s.drop_last(), x);
    }
}

proof fn lemma_occurrences_contains<T>(s: Seq<T>, x: T)
    ensures
        occurrences(s, x) > 0 <==> s.contains(x),
    decreases s.len(),
{
    if s.len() > 0 {
        lemma_occurrences_contains(s.drop_last(), x);
        if s.contains(x) {
            let i = choose|i: int| 0 <= i < s.len() && s[i] == x;
            if i < s.len() - 1 {
                assert(s.drop_last()[i] == x);
            }
        }
        if s.drop_last().contains(x) {
            let i = choose|i: int| 0 <= i < s.len() - 1 && s.drop_last()[i] == x;
            assert(s[i] == x);
        }
    }
}

proof fn lemma_all_occur(s: Seq<bool>)
    requires
        forall|i: int| 0 <= i < s.len() ==> s[i],
    ensures
        occurrences(s, true) == s.len(),
    decreases s.len(),
{
    if s.len() > 0 {
        lemma_all_occur(s.drop_last());
    }
}

proof fn lemma_none_occurs(s: Seq<bool>)
    requires
        forall|i: int| 0 <= i < s.len() ==> !s[i],
    ensures
        occurrences(s, true) == 0,
    decreases s.len(),
{
    if s.len() > 0 {
        lemma_none_occurs(s.drop_last());
    }
}

proof fn lemma_one_more(s: Seq<bool>, i: int)
    requires
        0 <= i < s.len(),
        !s[i],
    ensures
        occurrences(s.update(i, true), true) == occurrences(s, true) + 1,
    decreases s.len(),
{
    let t = s.update(i, true);
    if i == s.len() - 1 {
        assert(t.drop_last() =~= s.drop_last());
    } else {
        assert(t.drop_last() =~= s.drop_last().update(i, true));
        lemma_one_more(s.drop_last(), i);
    }
}

/// Where the packets of a batch stand among all packets.
proof fn lemma_senders_at(batches: Seq<PacketBatch>, b: int)
    requires
        0 <= b < batches.len(),
    ensures
        offset(batches, b + 1) == offset(batches, b) + batches[b].packets@.len(),
        offset(batches, b + 1) <= senders(batches).len(),
        forall|p: int|
            0 <= p < batches[b].packets@.len() ==> #[trigger] senders(batches)[offset(batches, b)
                + p] == batches[b].packets@[p].meta.addr,
    decreases batches.len(),
{
    let last = batches.len() - 1;
    assert(batches.take(b + 1).drop_last() =~= batches.take(b));
    if b == last {
        assert(batches.take(b + 1) =~= batches);
        assert(batches.drop_last() =~= batches.take(b));
    } else {
        let front = batches.drop_last();
        lemma_senders_at(front, b);
        assert(front.take(b) =~= batches.take(b));
        assert(front.take(b + 1) =~= batches.take(b + 1));
        assert forall|p: int| 0 <= p < batches[b].packets@.len() implies #[trigger] senders(
            batches,
        )[offset(batches, b) + p] == batches[b].packets@[p].meta.addr by {
            assert(senders(front)[offset(front, b) + p] == front[b].packets@[p].meta.addr);
        }
    }
}

/// The senders of all packets.
fn list_senders(batches: &Vec<PacketBatch>) -> (r: Vec<u128>)
    ensures
        r@ == senders(batches@),
{
    let mut r: Vec<u128> = Vec::new();
    let mut b: usize = 0;
    while b < batches.len()
        invariant
            b <= batches@.len(),
            r@ == senders(batches@.take(b as int)),
        decreases batches@.len() - b,
    {
        let batch = &batches[b];
        let ghost before = r@;
        let mut p: usize = 0;
        while p < batch.packets.len()
            invariant
                p <= batch.packets@.len(),
                r@ == before + batch_senders(*batch).take(p as int),
            decreases batch.packets@.len() - p,
        {
            r.push(batch.packets[p].meta.addr);
            p = p + 1;
            assert(r@ =~= before + batch_senders(*batch).take(p as int));
        }
        assert(batch_senders(*batch).take(p as int) =~= batch_senders(*batch));
        assert(batches@.take(b + 1).drop_last() =~= batches@.take(b as int));
        b = b + 1;
    }
    assert(batches@.take(b as int) =~= batches@);
    r
}

/// Packet `i` stands in the group of its sender, at the place that tells how many packets of that
/// sender came before it.
spec fn placed(senders: Seq<u128>, slots: Map<u128, usize>, groups: Seq<Vec<usize>>, i: int) -> bool {
    let slot = slots[senders[i]];
    &&& slots.contains_key(senders[i])
    &&& slot < groups.len()
    &&& earlier(senders, i) < groups[slot as int]@.len()
    &&& groups[slot as int]@[earlier(senders, i) as int] == i
}

/// At place `k` of group `g` stands a packet that belongs there.
spec fn holds(
    senders: Seq<u128>,
    n: int,
    slots: Map<u128, usize>,
    groups: Seq<Vec<usize>>,
    g: int,
    k: int,
) -> bool {
    let i = groups[g]@[k] as int;
    &&& i < n
    &&& slots.contains_key(senders[i])
    &&& slots[senders[i]] == g
    &&& earlier(senders, i) == k
}

/// The group of sender `a` holds all packets of that sender, and begins with one of them.
spec fn complete(
    senders: Seq<u128>,
    n: int,
    slots: Map<u128, usize>,
    groups: Seq<Vec<usize>>,
    a: u128,
) -> bool {
    slots.contains_key(a) ==> {
        &&& slots[a] < groups.len()
        &&& groups[slots[a] as int]@.len() == occurrences(senders.take(n), a)
        &&& groups[slots[a] as int]@.len() > 0
        &&& senders[groups[slots[a] as int]@[0] as int] == a
    }
}

/// The first `n` packets are grouped by sender, each group in the order in which they came.
spec fn grouped(
    senders: Seq<u128>,
    n: int,
    slots: Map<u128, usize>,
    groups: Seq<Vec<usize>>,
) -> bool {
    &&& forall|i: int| 0 <= i < n ==> #[trigger] placed(senders, slots, groups, i)
    &&& forall|g: int, k: int|
        0 <= g < groups.len() && 0 <= k < groups[g]@.len() ==> #[trigger] holds(
            senders,
            n,
            slots,
            groups,
            g,
            k,
        )
    &&& forall|a: u128| #[trigger] complete(senders, n, slots, groups, a)
}

/// One more packet goes to the end of its sender's group.
proof fn lemma_grouped_push(
    senders: Seq<u128>,
    i: int,
    slots: Map<u128, usize>,
    groups: Seq<Vec<usize>>,
    new_slots: Map<u128, usize>,
    new_groups: Seq<Vec<usize>>,
)
    requires
        0 <= i < senders.len() <= usize::MAX,
        grouped(senders, i, slots, groups),
        slots.contains_key(senders[i]) ==> new_slots == slots && new_groups.len() == groups.len(),
        !slots.contains_key(senders[i]) ==> groups.len() <= usize::MAX && new_slots == slots.insert(
            senders[i],
            groups.len() as usize,
        ) && new_groups.len() == groups.len() + 1,
        ({
            let slot = new_slots[senders[i]] as int;
            &&& new_groups[slot]@ == (if slots.contains_key(senders[i]) {
                groups[slot]@
            } else {
                Seq::empty()
            }).push(i as usize)
            &&& forall|g: int| 0 <= g < groups.len() && g != slot ==> new_groups[g] == groups[g]
        }),
    ensures
        grouped(senders, i + 1, new_slots, new_groups),
{
    let sender = senders[i];
    let slot = new_slots[sender] as int;
    assert(complete(senders, i, slots, groups, sender));
    lemma_occurrences_contains(senders.take(i), sender);
    assert(slots.contains_key(sender) || !senders.take(i).contains(sender)) by {
        if senders.take(i).contains(sender) {
            let j = choose|j: int| 0 <= j < i && senders.take(i)[j] == sender;
            assert(placed(senders, slots, groups, j));
        }
    }
    assert forall|j: int| 0 <= j < i + 1 implies #[trigger] placed(
        senders,
        new_slots,
        new_groups,
        j,
    ) by {
        if j < i {
            assert(placed(senders, slots, groups, j));
        }
    }
    assert forall|g: int, k: int|
        0 <= g < new_groups.len() && 0 <= k < new_groups[g]@.len() implies #[trigger] holds(
        senders,
        i + 1,
        new_slots,
        new_groups,
        g,
        k,
    ) by {
        if g != slot || k != new_groups[g]@.len() - 1 {
            assert(holds(senders, i, slots, groups, g, k));
        }
    }
    assert forall|a: u128| #[trigger] complete(senders, i + 1, new_slots, new_groups, a) by {
        assert(complete(senders, i, slots, groups, a));
        assert(senders.take(i + 1).drop_last() =~= senders.take(i));
    }
}

/// The packets of each sender, in the order in which they came.
fn group_by_sender(senders: &Vec<u128>) -> (r: (HashMap<u128, usize>, Vec<Vec<usize>>))
    ensures
        grouped(senders@, senders@.len() as int, r.0@, r.1@),
{
    let mut slots: HashMap<u128, usize> = HashMap::new();
    let mut groups: Vec<Vec<usize>> = Vec::new();
    let mut i: usize = 0;
    while i < senders.len()
        invariant
            i <= senders@.len(),
            grouped(senders@, i as int, slots@, groups@),
        decreases senders@.len() - i,
    {
        let sender = senders[i];
        let ghost old_slots = slots@;
        let ghost old_groups = groups@;
        assert(complete(senders@, i as int, slots@, groups@, sender));
        let slot: usize = match slots.get(&sender) {
            Some(slot) => *slot,
            None => {
                let slot: usize = groups.len();
                groups.push(Vec::new());
                slots.insert(sender, slot);
                slot
            },
        };
        groups[slot].push(i);
        proof {
            lemma_grouped_push(senders@, i as int, old_slots, old_groups, slots@, groups@);
        }
        i = i + 1;
    }
    (slots, groups)
}

/// Chooses so many packets, taking one after another of each sender in turn.
fn choose_fairly(senders: &Vec<u128>, max_packets: usize) -> (kept: Vec<bool>)
    requires
        max_packets <= senders@.len(),
    ensures
        kept@.len() == senders@.len(),
        fair(senders@, kept@),
        occurrences(kept@, true) == max_packets,
{
    let (slots, groups) = group_by_sender(senders);
    let mut kept: Vec<bool> = Vec::new();
    let mut i: usize = 0;
    while i < senders.len()
        invariant
            i <= senders@.len(),
            kept@.len() == i,
            forall|j: int| 0 <= j < i ==> !kept@[j],
        decreases senders@.len() - i,
    {
        kept.push(false);
        i = i + 1;
    }
    proof {
        lemma_none_occurs(kept@);
    }
    let ghost n = senders@.len();
    let mut batch_len: usize = 0;
    let mut round: usize = 0;
    while batch_len < max_packets
        invariant
            n == senders@.len(),
            n <= usize::MAX,
            kept@.len() == n,
            max_packets <= n,
            round <= n,
            grouped(senders@, n as int, slots@, groups@),
            occurrences(kept@, true) == batch_len,
            batch_len <= max_packets,
            batch_len < max_packets ==> forall|j: int|
                0 <= j < n ==> (#[trigger] kept@[j] <==> earlier(senders@, j) < round),
            fair(senders@, kept@),
        decreases n - round + (if batch_len < max_packets {
            1int
        } else {
            0
        }),
    {
        proof {
            if round == n {
                assert forall|j: int| 0 <= j < n implies kept@[j] by {
                    lemma_occurrences_bound(senders@.take(j), senders@[j]);
                }
                lemma_all_occur(kept@);
            }
            assert(round < n);
        }
        let mut g: usize = 0;
        while g < groups.len()
            invariant_except_break
                batch_len < max_packets,
                forall|j: int|
                    0 <= j < n ==> (#[trigger] kept@[j] <==> earlier(senders@, j) < round || (
                    earlier(senders@, j) == round && slots@[senders@[j]] < g)),
            invariant
                g <= groups@.len(),
                n == senders@.len(),
                kept@.len() == n,
                max_packets <= n,
                grouped(senders@, n as int, slots@, groups@),
                occurrences(kept@, true) == batch_len,
            ensures
                n == senders@.len(),
                kept@.len() == n,
                occurrences(kept@, true) == batch_len,
                batch_len <= max_packets,
                batch_len < max_packets ==> g == groups@.len() && forall|j: int|
                    0 <= j < n ==> (#[trigger] kept@[j] <==> earlier(senders@, j) < round || (
                    earlier(senders@, j) == round && slots@[senders@[j]] < g)),
                fair(senders@, kept@),
            decreases groups@.len() - g,
        {
            if round < groups[g].len() {
                let next: usize = groups[g][round];
                let ghost before = kept@;
                proof {
                    assert(holds(senders@, n as int, slots@, groups@, g as int, round as int));
                    lemma_one_more(kept@, next as int);
                }
                kept[next] = true;
                batch_len = batch_len + 1;
                proof {
                    assert(kept@ == before.update(next as int, true));
                    assert forall|j: int| 0 <= j < n implies (#[trigger] kept@[j] <==> earlier(
                        senders@,
                        j,
                    ) < round || (earlier(senders@, j) == round && slots@[senders@[j]] < g + 1)) by {
                        assert(placed(senders@, slots@, groups@, j));
                        if earlier(senders@, j) == round && slots@[senders@[j]] == g {
                            assert(j == next);
                        }
                        if j != next {
                            assert(kept@[j] == before[j]);
                        }
                    }
                }
                if batch_len >= max_packets {
                    break;
                }
            } else {
                proof {
                    assert forall|j: int| 0 <= j < n implies (#[trigger] kept@[j] <==> earlier(
                        senders@,
                        j,
                    ) < round || (earlier(senders@, j) == round && slots@[senders@[j]] < g + 1)) by {
                        assert(placed(senders@, slots@, groups@, j));
                    }
                }
            }
            g = g + 1;
        }
        proof {
            if batch_len < max_packets {
                assert forall|j: int| 0 <= j < n implies (#[trigger] kept@[j] <==> earlier(
                    senders@,
                    j,
                ) < round + 1) by {
                    assert(placed(senders@, slots@, groups@, j));
                }
            }
        }
        round = round + 1;
    }
    kept
}

/// Discards the packets that are not kept, and returns how many they are.
fn discard_others(batches: &mut Vec<PacketBatch>, kept: &Vec<bool>) -> (fail: usize)
    requires
        kept@.len() == senders(old(batches)@).len(),
    ensures
        marked(old(batches)@, final(batches)@, kept@),
        fail == kept@.len() - occurrences(kept@, true),
{
    let ghost before = batches@;
    assert(kept.len() <= usize::MAX);
    let mut fail: usize = 0;
    let mut i: usize = 0;
    let mut b: usize = 0;
    while b < batches.len()
        invariant
            b <= batches@.len(),
            batches@.len() == before.len(),
            kept@.len() == senders(before).len(),
            i == offset(before, b as int),
            i <= kept@.len(),
            kept@.len() <= usize::MAX,
            fail == i - occurrences(kept@.take(i as int), true),
            forall|c: int|
                0 <= c < before.len() ==> (#[trigger] batches@[c]).packets@.len()
                    == before[c].packets@.len(),
            forall|c: int| b <= c < before.len() ==> #[trigger] batches@[c] == before[c],
            forall|c: int, p: int|
                0 <= c < b && 0 <= p < before[c].packets@.len() ==> kept_or_discarded(
                    before[c].packets@[p],
                    kept@[offset(before, c) + p],
                    #[trigger] batches@[c].packets@[p],
                ),
        decreases batches@.len() - b,
    {
        let ghost start = i;
        proof {
            lemma_senders_at(before, b as int);
        }
        let mut p: usize = 0;
        while p < batches[b].packets.len()
            invariant
                b < batches@.len(),
                batches@.len() == before.len(),
                p <= before[b as int].packets@.len(),
                batches@[b as int].packets@.len() == before[b as int].packets@.len(),
                kept@.len() == senders(before).len(),
                start == offset(before, b as int),
                start + before[b as int].packets@.len() <= kept@.len(),
                i == start + p,
                fail == i - occurrences(kept@.take(i as int), true),
                i <= kept@.len(),
                kept@.len() <= usize::MAX,
                forall|c: int|
                    0 <= c < before.len() ==> (#[trigger] batches@[c]).packets@.len()
                        == before[c].packets@.len(),
                forall|c: int| b < c < before.len() ==> #[trigger] batches@[c] == before[c],
                forall|c: int, q: int|
                    0 <= c < b && 0 <= q < before[c].packets@.len() ==> kept_or_discarded(
                        before[c].packets@[q],
                        kept@[offset(before, c) + q],
                        #[trigger] batches@[c].packets@[q],
                    ),
                forall|q: int|
                    0 <= q < p ==> kept_or_discarded(
                        before[b as int].packets@[q],
                        kept@[start + q],
                        #[trigger] batches@[b as int].packets@[q],
                    ),
                forall|q: int|
                    p <= q < before[b as int].packets@.len() ==> #[trigger] batches@[b as int].packets@[q]
                        == before[b as int].packets@[q],
            decreases before[b as int].packets@.len() - p,
        {
            assert(kept@.take(i + 1).drop_last() =~= kept@.take(i as int));
            proof {
                lemma_occurrences_bound(kept@.take(i as int), true);
            }
            let ghost held = batches@;
            if !kept[i] {
                batches[b].packets[p].meta.discard = true;
                fail = fail + 1;
            }
            proof {
                assert(forall|c: int| 0 <= c < held.len() && c != b ==> #[trigger] batches@[c]
                    == held[c]);
                assert forall|q: int| 0 <= q < before[b as int].packets@.len() && q != p implies
                    #[trigger] batches@[b as int].packets@[q] == held[b as int].packets@[q] by {}
            }
            p = p + 1;
            i = i + 1;
        }
        b = b + 1;
    }
    assert(before.take(b as int) =~= before);
    assert(kept@.take(i as int) =~= kept@);
    fail
}

/// Discards packets until no more than `max_packets` are kept, and returns how many were
/// discarded. In turn each sender has its earliest packet kept, until there are enough.
///
/// Which senders are the last to have one more packet kept than others is left open. There must be
/// at least as many packets as are to be kept.
pub fn discard_excess_packets(batches: &mut Vec<PacketBatch>, max_packets: usize) -> (fail: usize)
    requires
        max_packets <= senders(old(batches)@).len(),
    ensures
        fail == senders(old(batches)@).len() - max_packets,
        fairly_discarded(old(batches)@, final(batches)@, max_packets as nat),
{
    let senders_list = list_senders(batches);
    let kept = choose_fairly(&senders_list, max_packets);
    discard_others(batches, &kept)
}

/// A fair choice keeps, of each sender, the packets that came first: whoever keeps a packet keeps
/// every earlier one of that sender.
pub proof fn law_first_packets_are_kept(senders: Seq<u128>, kept: Seq<bool>, i: int, j: int)
    requires
        kept.len() == senders.len(),
        fair(senders, kept),
        0 <= i < j < senders.len(),
        senders[i] == senders[j],
        kept[j],
    ensures
        kept[i],
{
    lemma_earlier_increases(senders, i, j);
}

proof fn lemma_earlier_increases(senders: Seq<u128>, i: int, j: int)
    requires
        0 <= i < j < senders.len(),
        senders[i] == senders[j],
    ensures
        earlier(senders, i) < earlier(senders, j),
    decreases j - i,
{
    let x = senders[i];
    lemma_occurrences_extend(senders, i + 1, j, x);
    assert(senders.take(i + 1).drop_last() =~= senders.take(i));
}

proof fn lemma_occurrences_extend(senders: Seq<u128>, i: int, j: int, x: u128)
    requires
        0 <= i <= j <= senders.len(),
    ensures
        occurrences(senders.take(i), x) <= occurrences(senders.take(j), x),
    decreases j - i,
{
    if i < j {
        lemma_occurrences_extend(senders, i, j - 1, x);
        assert(senders.take(j).drop_last() =~= senders.take(j - 1));
    }
}

/// How many packets of a sender are kept.
pub open spec fn kept_from(senders: Seq<u128>, kept: Seq<bool>, sender: u128) -> nat
    decreases senders.len(),
{
    if senders.len() == 0 {
        0
    } else {
        kept_from(senders.drop_last(), kept.drop_last(), sender) + if senders.last() == sender
            && kept.last() {
            1nat
        } else {
            0
        }
    }
}

/// No sender crowds another out: where a packet of some sender is discarded, no other sender has
/// more than one packet more kept than that one.
pub proof fn law_no_sender_is_crowded_out(
    senders: Seq<u128>,
    kept: Seq<bool>,
    discarded: int,
    other: u128,
)
    requires
        kept.len() == senders.len(),
        fair(senders, kept),
        0 <= discarded < senders.len(),
        !kept[discarded],
    ensures
        kept_from(senders, kept, other) <= kept_from(senders, kept, senders[discarded]) + 1,
{
    let loser = senders[discarded];
    let j = lemma_first_discarded(senders, kept, discarded);
    lemma_kept_at_least(senders, kept, j, loser);
    if kept_from(senders, kept, other) > 0 {
        let i = lemma_last_kept(senders, kept, other);
        lemma_kept_at_most(senders, kept, i + 1, other);
        assert(senders.take(i + 1).drop_last() =~= senders.take(i));
        assert(kept[i] && !kept[j]);
    }
}

proof fn lemma_first_discarded(senders: Seq<u128>, kept: Seq<bool>, j: int) -> (r: int)
    requires
        kept.len() == senders.len(),
        0 <= j < senders.len(),
        !kept[j],
    ensures
        0 <= r <= j,
        senders[r] == senders[j],
        !kept[r],
        forall|i: int| 0 <= i < r && #[trigger] senders[i] == senders[j] ==> kept[i],
    decreases j,
{
    if exists|i: int| 0 <= i < j && senders[i] == senders[j] && !#[trigger] kept[i] {
        let i = choose|i: int| 0 <= i < j && senders[i] == senders[j] && !#[trigger] kept[i];
        lemma_first_discarded(senders, kept, i)
    } else {
        j
    }
}

proof fn lemma_last_kept(senders: Seq<u128>, kept: Seq<bool>, sender: u128) -> (r: int)
    requires
        kept.len() == senders.len(),
        kept_from(senders, kept, sender) > 0,
    ensures
        0 <= r < senders.len(),
        senders[r] == sender,
        kept[r],
        forall|i: int| r < i < senders.len() && #[trigger] senders[i] == sender ==> !kept[i],
    decreases senders.len(),
{
    let last = senders.len() - 1;
    if senders[last] == sender && kept[last] {
        last
    } else {
        let r = lemma_last_kept(senders.drop_last(), kept.drop_last(), sender);
        assert forall|i: int| r < i < senders.len() && #[trigger] senders[i] == sender implies
            !kept[i] by {
            if i < last {
                assert(senders.drop_last()[i] == sender);
            }
        }
        r
    }
}

/// A sender of whom nothing is kept from `m` on has at most its packets before `m` kept.
proof fn lemma_kept_at_most(senders: Seq<u128>, kept: Seq<bool>, m: int, sender: u128)
    requires
        kept.len() == senders.len(),
        0 <= m <= senders.len(),
        forall|i: int| m <= i < senders.len() && #[trigger] senders[i] == sender ==> !kept[i],
    ensures
        kept_from(senders, kept, sender) <= occurrences(senders.take(m), sender),
    decreases senders.len(),
{
    if senders.len() > 0 {
        let front = senders.drop_last();
        let front_kept = kept.drop_last();
        if m == senders.len() {
            assert(senders.take(m) =~= senders);
            assert(front.take(m - 1) =~= front);
            lemma_kept_at_most(front, front_kept, m - 1, sender);
        } else {
            assert(senders.take(m) =~= front.take(m));
            assert forall|i: int| m <= i < front.len() && #[trigger] front[i] == sender implies
                !front_kept[i] by {
                assert(senders[i] == sender);
            }
            lemma_kept_at_most(front, front_kept, m, sender);
        }
    }
}

/// A sender of whom everything before `m` is kept has at least those packets kept.
proof fn lemma_kept_at_least(senders: Seq<u128>, kept: Seq<bool>, m: int, sender: u128)
    requires
        kept.len() == senders.len(),
        0 <= m <= senders.len(),
        forall|i: int| 0 <= i < m && #[trigger] senders[i] == sender ==> kept[i],
    ensures
        kept_from(senders, kept, sender) >= occurrences(senders.take(m), sender),
    decreases senders.len(),
{
    if senders.len() > 0 {
        let front = senders.drop_last();
        let front_kept = kept.drop_last();
        let n = if m == senders.len() {
            m - 1
        } else {
            m
        };
        assert forall|i: int| 0 <= i < n && #[trigger] front[i] == sender implies front_kept[i] by {
            assert(senders[i] == sender);
        }
        lemma_kept_at_least(front, front_kept, n, sender);
        if m == senders.len() {
            assert(senders.take(m) =~= senders);
            assert(front.take(n) =~= front);
        } else {
            assert(senders.take(m) =~= front.take(m));
        }
    }
}

/// All packets, in the order in which they came.
pub open spec fn all_packets(batches: Seq<PacketBatch>) -> Seq<Packet>
    decreases batches.len(),
{
    if batches.len() == 0 {
        Seq::empty()
    } else {
        all_packets(batches.drop_last()) + batches.last().packets@
    }
}

/// The same packets, but that those are discarded that are not kept.
proof fn lemma_marked_packets(before: Seq<PacketBatch>, after: Seq<PacketBatch>, kept: Seq<bool>)
    requires
        marked(before, after, kept),
    ensures
        all_packets(before).len() == kept.len(),
        all_packets(after).len() == kept.len(),
        senders(before).len() == kept.len(),
        forall|i: int| #![trigger all_packets(after)[i]]
            0 <= i < kept.len() ==> {
                &&& kept_or_discarded(all_packets(before)[i], kept[i], all_packets(after)[i])
                &&& senders(before)[i] == all_packets(before)[i].meta.addr
            },
    decreases before.len(),
{
    if before.len() > 0 {
        let last = before.len() - 1;
        let front = before.drop_last();
        let front_after = after.drop_last();
        let n = offset(before, last);
        lemma_senders_at(before, last);
        assert(before.take(last) =~= front);
        assert(before.take(last + 1) =~= before);
        let front_kept = kept.take(n as int);
        assert forall|b: int, p: int|
            0 <= b < front.len() && 0 <= p < front[b].packets@.len() implies kept_or_discarded(
            front[b].packets@[p],
            front_kept[offset(front, b) + p],
            #[trigger] front_after[b].packets@[p],
        ) by {
            lemma_senders_at(front, b);
            assert(front.take(b) =~= before.take(b));
            assert(kept_or_discarded(
                before[b].packets@[p],
                kept[offset(before, b) + p],
                after[b].packets@[p],
            ));
        }
        assert forall|b: int| 0 <= b < front.len() implies (#[trigger] front_after[b]).packets@.len()
            == front[b].packets@.len() by {
            assert(after[b].packets@.len() == before[b].packets@.len());
        }
        lemma_marked_packets(front, front_after, front_kept);
        assert(after[last].packets@.len() == before[last].packets@.len());
        assert forall|i: int| #![trigger all_packets(after)[i]] 0 <= i < kept.len() implies {
            &&& kept_or_discarded(all_packets(before)[i], kept[i], all_packets(after)[i])
            &&& senders(before)[i] == all_packets(before)[i].meta.addr
        } by {
            if i < n {
                assert(all_packets(after)[i] == all_packets(front_after)[i]);
                assert(kept_or_discarded(
                    all_packets(front)[i],
                    front_kept[i],
                    all_packets(front_after)[i],
                ));
            } else {
                let p = i - n;
                assert(all_packets(after)[i] == after[last].packets@[p]);
                assert(kept_or_discarded(
                    before[last].packets@[p],
                    kept[n + p],
                    after[last].packets@[p],
                ));
            }
        }
    }
}

proof fn lemma_kept_packets(packets: Seq<Packet>, senders: Seq<u128>, kept: Seq<bool>, sender: u128)
    requires
        packets.len() == kept.len(),
        senders.len() == kept.len(),
        forall|i: int| #![trigger packets[i]]
            0 <= i < kept.len() ==> packets[i].meta.discard == !kept[i] && packets[i].meta.addr
                == senders[i],
    ensures
        packets.filter(|p: Packet| !p.meta.discard).len() == occurrences(kept, true),
        packets.filter(|p: Packet| !p.meta.discard && p.meta.addr == sender).len() == kept_from(
            senders,
            kept,
            sender,
        ),
    decreases packets.len(),
{
    reveal(Seq::filter);
    if packets.len() > 0 {
        let n = packets.len() - 1;
        assert forall|i: int| #![trigger packets.drop_last()[i]] 0 <= i < n implies
            packets.drop_last()[i].meta.discard == !kept.drop_last()[i]
            && packets.drop_last()[i].meta.addr == senders.drop_last()[i] by {
            assert(packets[i].meta.discard == !kept[i]);
        }
        lemma_kept_packets(packets.drop_last(), senders.drop_last(), kept.drop_last(), sender);
        assert(packets[n].meta.discard == !kept[n]);
    }
}

/// As many packets are kept as may be, and all others are discarded; which is said. Apart from that
/// packets stay as they are, and one that was discarded before stays discarded.
pub proof fn law_so_many_packets_are_kept(
    batches: &mut Vec<PacketBatch>,
    max_packets: usize,
    fail: usize,
    i: int,
)
    requires
        call_ensures(discard_excess_packets, (batches, max_packets), fail),
        0 <= i < all_packets(old(batches)@).len(),
    ensures
        all_packets(final(batches)@).len() == all_packets(old(batches)@).len(),
        fail == all_packets(old(batches)@).len() - max_packets,
        all_packets(final(batches)@)[i].meta.addr == all_packets(old(batches)@)[i].meta.addr,
        all_packets(old(batches)@)[i].meta.discard ==> all_packets(
            final(batches)@,
        )[i].meta.discard,
        (forall|j: int|
            0 <= j < all_packets(old(batches)@).len() ==> !(#[trigger] all_packets(
                old(batches)@,
            )[j]).meta.discard) ==> all_packets(final(batches)@).filter(
            |p: Packet| !p.meta.discard,
        ).len() == max_packets,
{
    let before = old(batches)@;
    let after = final(batches)@;
    let kept = choose|kept: Seq<bool>|
        {
            &&& #[trigger] marked(before, after, kept)
            &&& fair(senders(before), kept)
            &&& occurrences(kept, true) == max_packets
        };
    lemma_marked_packets(before, after, kept);
    let packets = all_packets(after);
    assert(kept_or_discarded(all_packets(before)[i], kept[i], packets[i]));
    if forall|j: int|
        0 <= j < all_packets(before).len() ==> !(#[trigger] all_packets(before)[j]).meta.discard {
        assert forall|j: int| #![trigger packets[j]] 0 <= j < kept.len() implies
            packets[j].meta.discard == !kept[j] && packets[j].meta.addr == senders(before)[j] by {
            assert(kept_or_discarded(all_packets(before)[j], kept[j], packets[j]));
            assert(!all_packets(before)[j].meta.discard);
        }
        lemma_kept_packets(packets, senders(before), kept, 0);
    }
}

/// Of each sender the packets are kept that came first: a packet of a sender is not discarded while a
/// later one of the same sender is kept.
pub proof fn law_later_packets_go_first(
    batches: &mut Vec<PacketBatch>,
    max_packets: usize,
    fail: usize,
    i: int,
    j: int,
)
    requires
        call_ensures(discard_excess_packets, (batches, max_packets), fail),
        0 <= i < j < all_packets(old(batches)@).len(),
        all_packets(old(batches)@)[i].meta.addr == all_packets(old(batches)@)[j].meta.addr,
        !all_packets(final(batches)@)[j].meta.discard,
    ensures
        all_packets(final(batches)@)[i].meta.discard == all_packets(old(batches)@)[i].meta.discard,
{
    let before = old(batches)@;
    let after = final(batches)@;
    let kept = choose|kept: Seq<bool>|
        {
            &&& #[trigger] marked(before, after, kept)
            &&& fair(senders(before), kept)
            &&& occurrences(kept, true) == max_packets
        };
    lemma_marked_packets(before, after, kept);
    assert(kept_or_discarded(all_packets(before)[i], kept[i], all_packets(after)[i]));
    assert(kept_or_discarded(all_packets(before)[j], kept[j], all_packets(after)[j]));
    law_first_packets_are_kept(senders(before), kept, i, j);
}

/// Senders are treated alike: whoever has a packet discarded keeps no fewer packets than any other
/// sender, but for one.
pub proof fn law_senders_are_treated_alike(
    batches: &mut Vec<PacketBatch>,
    max_packets: usize,
    fail: usize,
    discarded: int,
    other: u128,
)
    requires
        call_ensures(discard_excess_packets, (batches, max_packets), fail),
        forall|j: int|
            0 <= j < all_packets(old(batches)@).len() ==> !(#[trigger] all_packets(
                old(batches)@,
            )[j]).meta.discard,
        0 <= discarded < all_packets(old(batches)@).len(),
        all_packets(final(batches)@)[discarded].meta.discard,
    ensures
        ({
            let loser = all_packets(old(batches)@)[discarded].meta.addr;
            let left = |sender: u128|
                all_packets(final(batches)@).filter(
                    |p: Packet| !p.meta.discard && p.meta.addr == sender,
                ).len();
            left(other) <= left(loser) + 1
        }),
{
    let before = old(batches)@;
    let after = final(batches)@;
    let kept = choose|kept: Seq<bool>|
        {
            &&& #[trigger] marked(before, after, kept)
            &&& fair(senders(before), kept)
            &&& occurrences(kept, true) == max_packets
        };
    lemma_marked_packets(before, after, kept);
    let packets = all_packets(after);
    assert forall|j: int| #![trigger packets[j]] 0 <= j < kept.len() implies
        packets[j].meta.discard == !kept[j] && packets[j].meta.addr == senders(before)[j] by {
        assert(kept_or_discarded(all_packets(before)[j], kept[j], packets[j]));
        assert(!all_packets(before)[j].meta.discard);
    }
    let loser = senders(before)[discarded];
    assert(packets[discarded].meta.discard == !kept[discarded]);
    lemma_kept_packets(packets, senders(before), kept, other);
    lemma_kept_packets(packets, senders(before), kept, loser);
    law_no_sender_is_crowded_out(senders(before), kept, discarded, other);
}

/// A round verifies no more packets than it can take: it stays as it is where there are few enough,
/// and otherwise keeps just as many as it can take, and says how many it discards.
pub proof fn law_a_round_is_limited(
    batches: &mut Vec<PacketBatch>,
    num_packets: usize,
    excess: usize,
)
    requires
        num_packets == all_packets(old(batches)@).len(),
        forall|j: int|
            0 <= j < all_packets(old(batches)@).len() ==> !(#[trigger] all_packets(
                old(batches)@,
            )[j]).meta.discard,
        call_ensures(crate::sigverify_stage::limit_round, (batches, num_packets), excess),
    ensures
        num_packets <= 10_000 ==> excess == 0 && final(batches)@ == old(batches)@,
        num_packets > 10_000 ==> {
            &&& excess == num_packets - 10_000
            &&& all_packets(final(batches)@).filter(|p: Packet| !p.meta.discard).len() == 10_000
        },
{
    if num_packets > 10_000 {
        let before = old(batches)@;
        let after = final(batches)@;
        let kept = choose|kept: Seq<bool>|
            {
                &&& #[trigger] marked(before, after, kept)
                &&& fair(senders(before), kept)
                &&& occurrences(kept, true) == 10_000
            };
        lemma_marked_packets(before, after, kept);
        let packets = all_packets(after);
        assert forall|j: int| #![trigger packets[j]] 0 <= j < kept.len() implies
            packets[j].meta.discard == !kept[j] && packets[j].meta.addr == senders(before)[j] by {
            assert(kept_or_discarded(all_packets(before)[j], kept[j], packets[j]));
            assert(!all_packets(before)[j].meta.discard);
        }
        lemma_kept_packets(packets, senders(before), kept, 0);
    }
}

} // verus!
