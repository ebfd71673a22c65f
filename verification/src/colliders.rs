//! Impact resolution: which projectiles a scan removes, and what the hits do
//! to the defender.
//!
//! The geometric tests themselves are made on single-precision coordinates by
//! the caller. A scan is handed their outcomes, one flag per pair tested, and
//! decides from them.

use vstd::prelude::*;
use crate::player::{health_after_hits, lemma_hits_step, Player, PlayerView};

verus! {

/// True when one of the flags is set.
pub open spec fn any_set(flags: Seq<bool>) -> bool {
    exists|j: int| 0 <= j < flags.len() && flags[j]
}

/// Whether `position` is among the positions that `gone` lists.
pub open spec fn lists(gone: Seq<usize>, position: int) -> bool {
    exists|k: int| 0 <= k < gone.len() && gone[k] == position
}

/// `picked` lists, in rising order and each once, the positions at which
/// `marks` holds.
pub open spec fn lists_marked(marks: Seq<bool>, picked: Seq<usize>) -> bool {
    &&& forall|k: int| 0 <= k < picked.len() ==> picked[k] < marks.len() && marks[picked[k] as int]
    &&& forall|i: int| 0 <= i < marks.len() && marks[i] ==> lists(picked, i)
    &&& forall|j: int, k: int| 0 <= j < k < picked.len() ==> picked[j] < picked[k]
}

/// For each projectile, whether it overlaps any obstacle.
pub open spec fn struck(overlaps: Seq<Vec<bool>>) -> Seq<bool> {
    Seq::new(overlaps.len(), |i: int| any_set(overlaps[i]@))
}

/// How the circle of the local participant stands to one obstacle, as the
/// caller measured it.
#[derive(Clone, Copy, Debug, PartialEq, Eq, Structural)]
pub struct Contact {
    /// The bounding boxes of circle and obstacle, each widened by the radius,
    /// overlap.
    pub near: bool,
    /// The centre is closer to the obstacle than radius and buffer together.
    pub within_reach: bool,
    /// The centre is far enough from the obstacle's nearest point for the
    /// direction between them to be told.
    pub apart: bool,
}

/// How the centre of the circle is moved out of an obstacle.
#[derive(Clone, Copy, Debug, PartialEq, Eq, Structural)]
pub enum PushOut {
    /// Not at all.
    Stay,
    /// Away from the nearest point of the obstacle, along the line from that
    /// point to the centre, until the distance is radius and buffer together.
    Away,
    /// By one radius in the direction of rising x.
    Sideways,
}

/// The push that a contact calls for: none unless the circle is near the
/// obstacle and within reach of it; then away from it, or sideways where the
/// centre lies on the obstacle.
pub open spec fn push_for(contact: Contact) -> PushOut {
    if !contact.near || !contact.within_reach {
        PushOut::Stay
    } else if contact.apart {
        PushOut::Away
    } else {
        PushOut::Sideways
    }
}

/// Decides, obstacle by obstacle, how the circle of the local participant is
/// pushed out. The pushes are to be made in the order of the obstacles.
pub fn detect_block_and_circle_collision(contacts: &Vec<Contact>) -> (pushes: Vec<PushOut>)
    ensures
        pushes@.len() == contacts@.len(),
        forall|i: int| 0 <= i < contacts@.len() ==> #[trigger] pushes@[i] == push_for(contacts@[i]),
{
    let mut pushes: Vec<PushOut> = Vec::new();
    let mut i: usize = 0;
    while i < contacts.len()
        invariant
            i <= contacts.len(),
            pushes@.len() == i,
            forall|k: int| 0 <= k < i ==> #[trigger] pushes@[k] == push_for(contacts@[k]),
        decreases contacts.len() - i,
    {
        let contact = contacts[i];
        let push = if !contact.near || !contact.within_reach {
            PushOut::Stay
        } else if contact.apart {
            PushOut::Away
        } else {
            PushOut::Sideways
        };
        pushes.push(push);
        i += 1;
    }
    pushes
}

/// The first position at which a flag is set, if there is one.
pub fn first_set(flags: &Vec<bool>) -> (found: Option<usize>)
    ensures
        found is None <==> !any_set(flags@),
        found matches Some(j) ==> j < flags.len() && flags[j as int] && forall|k: int|
            0 <= k < j ==> !flags[k],
{
    let mut j: usize = 0;
    while j < flags.len()
        invariant
            j <= flags.len(),
            forall|k: int| 0 <= k < j ==> !flags[k],
        decreases flags.len() - j,
    {
        if flags[j] {
            return Some(j);
        }
        j += 1;
    }
    None
}

/// Scans the projectiles against the obstacles. `overlaps[i][j]` says whether
/// the bounding box of projectile `i` overlaps obstacle `j`. Returns the
/// projectiles to destroy: those that overlap at least one obstacle, each
/// once, in rising order. A projectile that overlaps no obstacle is never
/// among them.
pub fn detect_block_and_bullet_collision(overlaps: &Vec<Vec<bool>>) -> (destroyed: Vec<usize>)
    ensures
        lists_marked(struck(overlaps@), destroyed@),
{
    let mut destroyed: Vec<usize> = Vec::new();
    let mut i: usize = 0;
    while i < overlaps.len()
        invariant
            i <= overlaps.len(),
            lists_marked(struck(overlaps@).take(i as int), destroyed@),
        decreases overlaps.len() - i,
    {
        let ghost before = destroyed@;
        let hit = first_set(&overlaps[i]);
        if hit.is_some() {
            destroyed.push(i);
        }
        proof {
            lemma_scan_step(struck(overlaps@), i as int, before, destroyed@);
        }
        i += 1;
    }
    assert(struck(overlaps@).take(i as int) =~= struck(overlaps@));
    destroyed
}

/// Scans the opposing projectiles against the defender. `hits[i]` says
/// whether projectile `i` is closer to the defender than the collision
/// distance. Every hit takes 200 from the defender's health as long as health
/// is positive, and queues its projectile for removal; the queue is returned
/// once the whole scan is done, and holds the hitting projectiles, each once,
/// in rising order. One impact effect is owed for each entry of the queue.
pub fn detect_player_and_bullet_collision(player: &mut Player, hits: &Vec<bool>) -> (removed: Vec<
    usize,
>)
    ensures
        lists_marked(hits@, removed@),
        final(player).current_health == health_after_hits(
            old(player).current_health as int,
            removed@.len(),
        ),
        final(player)@ == (PlayerView {
            current_health: final(player).current_health,
            ..old(player)@
        }),
{
    let mut removed: Vec<usize> = Vec::new();
    let mut i: usize = 0;
    while i < hits.len()
        invariant
            i <= hits.len(),
            lists_marked(hits@.take(i as int), removed@),
            player.current_health == health_after_hits(
                old(player).current_health as int,
                removed@.len(),
            ),
            player@ == (PlayerView { current_health: player.current_health, ..old(player)@ }),
        decreases hits.len() - i,
    {
        let ghost before = removed@;
        if hits[i] {
            proof {
                lemma_hits_step(old(player).current_health as int, removed@.len());
            }
            player.take_hit();
            removed.push(i);
        }
        proof {
            lemma_scan_step(hits@, i as int, before, removed@);
        }
        i += 1;
    }
    assert(hits@.take(i as int) =~= hits@);
    removed
}

/// The items at position `from` and after whose position is not listed in
/// `gone`, in their order.
pub open spec fn survivors_from<T>(items: Seq<T>, gone: Seq<usize>, from: int) -> Seq<T>
    decreases items.len() - from,
{
    if from < 0 || from >= items.len() {
        Seq::empty()
    } else if lists(gone, from) {
        survivors_from(items, gone, from + 1)
    } else {
        seq![items[from]] + survivors_from(items, gone, from + 1)
    }
}

/// The items whose position is not listed in `gone`, in their order.
pub open spec fn survivors<T>(items: Seq<T>, gone: Seq<usize>) -> Seq<T> {
    survivors_from(items, gone, 0)
}

/// Whether `position` is listed in `queue`.
fn is_listed(queue: &Vec<usize>, position: usize) -> (listed: bool)
    ensures
        listed == lists(queue@, position as int),
{
    let mut k: usize = 0;
    while k < queue.len()
        invariant
            k <= queue.len(),
            forall|j: int| 0 <= j < k ==> queue[j] != position,
        decreases queue.len() - k,
    {
        if queue[k] == position {
            return true;
        }
        k += 1;
    }
    false
}

/// Takes the queued projectiles out of the collection, once a scan is over:
/// what stays are the items whose position the queue does not list, in the
/// order they had. Positions that the collection does not have, and
/// positions listed twice, do no harm.
pub fn despawn<T>(items: &mut Vec<T>, queue: &Vec<usize>)
    ensures
        final(items)@ == survivors(old(items)@, queue@),
{
    let mut i: usize = items.len();
    while i > 0
        invariant
            i <= old(items)@.len(),
            items@ == old(items)@.take(i as int) + survivors_from(old(items)@, queue@, i as int),
        decreases i,
    {
        i -= 1;
        let ghost tail = survivors_from(old(items)@, queue@, i + 1);
        assert(old(items)@.take(i + 1) =~= old(items)@.take(i as int).push(old(items)@[i as int]));
        if is_listed(queue, i) {
            let _ = items.remove(i);
            assert(items@ =~= old(items)@.take(i as int) + tail);
        } else {
            assert(items@ =~= old(items)@.take(i as int) + (seq![old(items)@[i as int]] + tail));
        }
    }
    assert(old(items)@.take(0) + survivors(old(items)@, queue@) =~= survivors(
        old(items)@,
        queue@,
    ));
}

/// After a scan and the removal of what it queued, the collection holds the
/// items that were not marked, and no others: as many as there were, less
/// the length of the queue.
pub proof fn lemma_survivors_are_the_unmarked<T>(items: Seq<T>, marks: Seq<bool>, queue: Seq<usize>)
    requires
        marks.len() == items.len(),
        lists_marked(marks, queue),
    ensures
        survivors(items, queue).len() == items.len() - queue.len(),
        forall|i: int| 0 <= i < items.len() ==> (marks[i] <==> #[trigger] lists(queue, i)),
{
    lemma_count_from(items, marks, queue, 0, 0);
    assert forall|i: int| 0 <= i < items.len() implies (marks[i] <==> #[trigger] lists(queue, i)) by {
        if lists(queue, i) {
            let k = choose|k: int| 0 <= k < queue.len() && queue[k] == i;
            assert(marks[queue[k] as int]);
        }
    }
}

/// From position `from` on, as many items stay as there are positions, less
/// the entries of the queue from `at` on, where `at` is the first entry not
/// below `from`.
proof fn lemma_count_from<T>(items: Seq<T>, marks: Seq<bool>, queue: Seq<usize>, from: int, at: int)
    requires
        marks.len() == items.len(),
        lists_marked(marks, queue),
        0 <= from <= items.len(),
        0 <= at <= queue.len(),
        forall|k: int| 0 <= k < at ==> queue[k] < from,
        forall|k: int| at <= k < queue.len() ==> queue[k] >= from,
    ensures
        survivors_from(items, queue, from).len() == (items.len() - from) - (queue.len() - at),
    decreases items.len() - from,
{
    if from < items.len() {
        if lists(queue, from) {
            let k = choose|k: int| 0 <= k < queue.len() && queue[k] == from;
            assert(k == at) by {
                if k > at {
                    assert(queue[at] < queue[k]);
                }
                if k < at {
                    assert(queue[k] < from);
                }
            }
            assert forall|j: int| at + 1 <= j < queue.len() implies queue[j] >= from + 1 by {
                assert(queue[at] < queue[j]);
            }
            lemma_count_from(items, marks, queue, from + 1, at + 1);
        } else {
            assert forall|j: int| at <= j < queue.len() implies queue[j] >= from + 1 by {
                if queue[j] == from {
                    assert(lists(queue, from));
                }
            }
            lemma_count_from(items, marks, queue, from + 1, at);
        }
    } else {
        if at < queue.len() {
            assert(queue[at] < marks.len());
        }
    }
}

/// Extending a scan by one position: the list grows by that position exactly
/// when it is marked.
proof fn lemma_scan_step(marks: Seq<bool>, i: int, before: Seq<usize>, after: Seq<usize>)
    requires
        0 <= i < marks.len(),
        i <= usize::MAX,
        lists_marked(marks.take(i), before),
        after == if marks[i] {
            before.push(i as usize)
        } else {
            before
        },
    ensures
        lists_marked(marks.take(i + 1), after),
{
    let wider = marks.take(i + 1);
    assert forall|k: int| 0 <= k < after.len() implies after[k] < wider.len() && wider[after[k] as int] by {
        if k < before.len() {
            assert(before[k] < marks.take(i).len());
            assert(marks.take(i)[before[k] as int]);
        }
    }
    assert forall|p: int| 0 <= p < wider.len() && wider[p] implies lists(after, p) by {
        if p < i {
            assert(marks.take(i)[p]);
            assert(lists(before, p));
            let k = choose|k: int| 0 <= k < before.len() && before[k] == p;
            assert(after[k] == p);
        } else {
            assert(after[before.len() as int] == i);
        }
    }
    assert forall|j: int, k: int| 0 <= j < k < after.len() implies after[j] < after[k] by {
        if k == before.len() {
            assert(before[j] < marks.take(i).len());
        }
    }
}

/// A projectile whose bounding box overlaps no obstacle is not destroyed, and
/// one that overlaps an obstacle is.
pub proof fn lemma_destroyed_iff_overlapping(
    overlaps: Seq<Vec<bool>>,
    destroyed: Seq<usize>,
    bullet: int,
)
    requires
        lists_marked(struck(overlaps), destroyed),
        0 <= bullet < overlaps.len(),
    ensures
        lists(destroyed, bullet) <==> any_set(overlaps[bullet]@),
{
    if lists(destroyed, bullet) {
        let k = choose|k: int| 0 <= k < destroyed.len() && destroyed[k] == bullet;
        assert(struck(overlaps)[destroyed[k] as int]);
    }
    if any_set(overlaps[bullet]@) {
        assert(struck(overlaps)[bullet]);
    }
}

} // verus!
