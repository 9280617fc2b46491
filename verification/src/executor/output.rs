//! From finished row ranges to the outputs that are waited for.

use core::ops::Range;

use vstd::prelude::*;

use super::bundle::flattened;
use super::policy::ExecutorDriver;
use super::policy::ExecutorIoPolicy;
use super::policy::ScanConfig;
use super::ranges::morsel_ranges;
use super::ranges::SelectedMorsel;

verus! {

/// The batches of one output, put together.
pub enum Combined<B> {
    /// There are none.
    Nothing,
    /// There is one, and it is the output.
    One(B),
    /// There are several, which are the chunks of the output, in order.
    Chunks(Vec<B>),
}

impl<B> Combined<B> {
    /// The batches, in order.
    pub open spec fn batches(self) -> Seq<B> {
        match self {
            Combined::Nothing => Seq::empty(),
            Combined::One(batch) => seq![batch],
            Combined::Chunks(batches) => batches@,
        }
    }

    /// Whether the form is the simplest one for the number of batches.
    pub open spec fn is_simplest(self) -> bool {
        match self {
            Combined::Chunks(batches) => batches@.len() >= 2,
            _ => true,
        }
    }
}

/// Put batches together: nothing, the one batch, or a chunked output.
pub fn combine_batches<B>(batches: Vec<B>) -> (combined: Combined<B>)
    ensures
        combined.batches() == batches@,
        combined.is_simplest(),
{
    let mut batches = batches;
    let ghost all = batches@;
    if batches.len() == 0 {
        assert(all =~= Seq::empty());
        Combined::Nothing
    } else if batches.len() == 1 {
        match batches.pop() {
            Some(batch) => {
                assert(all =~= seq![batch]);
                Combined::One(batch)
            },
            None => Combined::Nothing,
        }
    } else {
        Combined::Chunks(batches)
    }
}

/// The rows of batches together; each batch comes with its number of rows.
pub open spec fn rows_in<B>(batches: Seq<(B, usize)>) -> int
    decreases batches.len(),
{
    if batches.len() == 0 {
        0
    } else {
        rows_in(batches.drop_last()) + batches.last().1
    }
}

/// The batches without their numbers of rows.
pub open spec fn arrays<B>(batches: Seq<(B, usize)>) -> Seq<B> {
    batches.map_values(|batch: (B, usize)| batch.0)
}

/// The length to which an output of `rows` rows is cut, if it is longer than its cap.
pub open spec fn cut_of(rows: int, row_cap: Option<usize>) -> Option<usize> {
    match row_cap {
        Some(cap) => if rows > cap {
            Some(cap)
        } else {
            None
        },
        None => None,
    }
}

/// The first batches have no more rows than all of them.
proof fn lemma_rows_in_prefix<B>(batches: Seq<(B, usize)>, k: int)
    requires
        0 <= k <= batches.len(),
    ensures
        0 <= rows_in(batches.take(k)) <= rows_in(batches),
    decreases batches.len(),
{
    if batches.len() == 0 {
        assert(batches.take(k) =~= batches);
    } else if k < batches.len() {
        lemma_rows_in_prefix(batches.drop_last(), k);
        assert(batches.drop_last().take(k) =~= batches.take(k));
    } else {
        lemma_rows_in_prefix(batches.drop_last(), k - 1);
        assert(batches.drop_last().take(k - 1) =~= batches.drop_last());
        assert(batches.take(k) =~= batches);
    }
}

/// The length to which the output of some batches is cut, if it is longer than its cap.
pub fn cap_rows<B>(batches: &Vec<(B, usize)>, row_cap: Option<usize>) -> (cut: Option<usize>)
    ensures
        cut == cut_of(rows_in(batches@), row_cap),
{
    let cap: usize = match row_cap {
        Some(cap) => cap,
        None => return None,
    };
    let mut left: usize = cap;
    let mut i: usize = 0;
    assert(batches@.take(0) =~= Seq::empty());
    while i < batches.len()
        invariant
            i <= batches@.len(),
            row_cap == Some(cap),
            left == cap - rows_in(batches@.take(i as int)),
        decreases batches@.len() - i,
    {
        proof {
            assert(batches@.take(i + 1).drop_last() =~= batches@.take(i as int));
            lemma_rows_in_prefix(batches@, i + 1);
        }
        if batches[i].1 > left {
            return Some(cap);
        }
        left = left - batches[i].1;
        i = i + 1;
    }
    assert(batches@.take(i as int) =~= batches@);
    None
}

/// The output of some batches, in order, and the length to which it is cut, if it is longer than
/// its cap.
fn finish_output<B>(batches: Vec<(B, usize)>, row_cap: Option<usize>) -> (output: (
    Combined<B>,
    Option<usize>,
))
    ensures
        output.0.batches() == arrays(batches@),
        output.0.is_simplest(),
        output.1 == cut_of(rows_in(batches@), row_cap),
{
    let cut: Option<usize> = cap_rows(&batches, row_cap);
    let ghost all = batches@;
    let mut rest = batches;
    let mut reversed: Vec<B> = Vec::new();
    loop
        invariant
            rest@.len() + reversed@.len() == all.len(),
            forall|i: int| 0 <= i < rest@.len() ==> #[trigger] rest@[i] == all[i],
            forall|i: int|
                0 <= i < reversed@.len() ==> #[trigger] reversed@[i] == all[all.len() - 1 - i].0,
        ensures
            rest@.len() == 0,
        decreases rest@.len(),
    {
        match rest.pop() {
            Some((array, _)) => {
                reversed.push(array);
            },
            None => {
                break ;
            },
        }
    }
    let mut stripped: Vec<B> = Vec::new();
    loop
        invariant
            reversed@.len() + stripped@.len() == all.len(),
            forall|i: int|
                0 <= i < reversed@.len() ==> #[trigger] reversed@[i] == all[all.len() - 1 - i].0,
            forall|i: int| 0 <= i < stripped@.len() ==> #[trigger] stripped@[i] == all[i].0,
        ensures
            reversed@.len() == 0,
        decreases reversed@.len(),
    {
        match reversed.pop() {
            Some(array) => {
                stripped.push(array);
            },
            None => {
                break ;
            },
        }
    }
    assert(stripped@ =~= arrays(all));
    (combine_batches(stripped), cut)
}

/// The batches with one more, kept in the order of their indices.
pub open spec fn inserted<B>(batches: Seq<(usize, B)>, index: usize, batch: B) -> Seq<(usize, B)>
    decreases batches.len(),
{
    if batches.len() == 0 || batches.last().0 < index {
        batches.push((index, batch))
    } else {
        inserted(batches.drop_last(), index, batch).push(batches.last())
    }
}

/// Whether the indices increase.
pub open spec fn increasing<B>(batches: Seq<(usize, B)>) -> bool {
    forall|i: int, j: int|
        0 <= i < j < batches.len() ==> (#[trigger] batches[i]).0 < (#[trigger] batches[j]).0
}

/// Whether a batch with the index is among them.
pub open spec fn has_index<B>(batches: Seq<(usize, B)>, index: usize) -> bool {
    exists|i: int| 0 <= i < batches.len() && (#[trigger] batches[i]).0 == index
}

/// The batches without their indices.
pub open spec fn values<B>(batches: Seq<(usize, B)>) -> Seq<B> {
    batches.map_values(|entry: (usize, B)| entry.1)
}

/// Collects the batches of the ranges of one morsel, and delivers the output when the last one is
/// there, or the first error before that.
pub struct OutputGroup<B> {
    /// The ranges that are not finished.
    pub remaining: usize,
    /// The batches so far, by the index of their range, each with its number of rows.
    pub batches: Vec<(usize, (B, usize))>,
    /// Whether the output, or an error, was delivered.
    pub delivered: bool,
    /// Exact output rows for this morsel under an unfiltered limit.
    pub row_cap: Option<usize>,
}

impl<B> OutputGroup<B> {
    /// A group that waits for `remaining` ranges.
    pub fn new(remaining: usize, row_cap: Option<usize>) -> (group: Self)
        ensures
            group.remaining == remaining,
            group.batches@ == Seq::<(usize, (B, usize))>::empty(),
            !group.delivered,
            group.row_cap == row_cap,
    {
        OutputGroup { remaining, batches: Vec::new(), delivered: false, row_cap }
    }

    /// Record that the range with the given index is finished, with its batch and the number of
    /// its rows if it has any.
    ///
    /// Gives the output when this was the last range and nothing was delivered before, with the
    /// length to which it is cut if it has more rows than the cap.
    pub fn complete(&mut self, index: usize, batch: Option<(B, usize)>) -> (output: Option<
        (Combined<B>, Option<usize>),
    >)
        requires
            old(self).remaining > 0,
        ensures
            ({
                let collected = match batch {
                    Some(batch) => inserted(old(self).batches@, index, batch),
                    None => old(self).batches@,
                };
                let last = old(self).remaining == 1;
                &&& final(self).remaining == old(self).remaining - 1
                &&& final(self).row_cap == old(self).row_cap
                &&& final(self).delivered == (old(self).delivered || last)
                &&& final(self).batches@ == if last {
                    Seq::empty()
                } else {
                    collected
                }
                &&& match output {
                    Some((combined, cut)) => {
                        &&& last && !old(self).delivered
                        &&& combined.batches() == arrays(values(collected))
                        &&& combined.is_simplest()
                        &&& cut == cut_of(rows_in(values(collected)), old(self).row_cap)
                    },
                    None => !last || old(self).delivered,
                }
            }),
    {
        match batch {
            Some(batch) => {
                self.insert(index, batch);
            },
            None => {},
        }
        self.remaining = self.remaining - 1;
        if self.remaining > 0 {
            return None;
        }
        let ghost collected = self.batches@;
        let mut batches: Vec<(usize, (B, usize))> = Vec::new();
        core::mem::swap(&mut batches, &mut self.batches);
        if self.delivered {
            return None;
        }
        self.delivered = true;
        Some(finish_output(Self::strip(batches), self.row_cap))
    }

    /// Deliver an error, unless something was delivered before. Says whether it is to be sent.
    pub fn fail(&mut self) -> (send: bool)
        ensures
            send == !old(self).delivered,
            final(self).delivered,
            final(self).remaining == old(self).remaining,
            final(self).batches@ == old(self).batches@,
            final(self).row_cap == old(self).row_cap,
    {
        let send: bool = !self.delivered;
        self.delivered = true;
        send
    }

    fn insert(&mut self, index: usize, batch: (B, usize))
        ensures
            final(self).batches@ == inserted(old(self).batches@, index, batch),
            final(self).remaining == old(self).remaining,
            final(self).delivered == old(self).delivered,
            final(self).row_cap == old(self).row_cap,
    {
        let ghost all = self.batches@;
        let mut at: usize = self.batches.len();
        while at > 0 && self.batches[at - 1].0 >= index
            invariant
                at <= self.batches@.len(),
                all == self.batches@,
                forall|i: int| at <= i < all.len() ==> (#[trigger] all[i]).0 >= index,
            decreases at,
        {
            at = at - 1;
        }
        proof {
            lemma_inserted_at(all, index, batch, at as int);
        }
        self.batches.insert(at, (index, batch));
    }

    fn strip(batches: Vec<(usize, (B, usize))>) -> (stripped: Vec<(B, usize)>)
        ensures
            stripped@ == values(batches@),
    {
        let mut rest = batches;
        let ghost all = rest@;
        let mut reversed: Vec<(B, usize)> = Vec::new();
        loop
            invariant
                rest@.len() + reversed@.len() == all.len(),
                forall|i: int| 0 <= i < rest@.len() ==> #[trigger] rest@[i] == all[i],
                forall|i: int|
                    0 <= i < reversed@.len() ==> #[trigger] reversed@[i] == all[all.len() - 1
                        - i].1,
            ensures
                rest@.len() == 0,
            decreases rest@.len(),
        {
            match rest.pop() {
                Some((_, batch)) => {
                    reversed.push(batch);
                },
                None => {
                    break ;
                },
            }
        }
        let mut stripped: Vec<(B, usize)> = Vec::new();
        loop
            invariant
                reversed@.len() + stripped@.len() == all.len(),
                forall|i: int|
                    0 <= i < reversed@.len() ==> #[trigger] reversed@[i] == all[all.len() - 1
                        - i].1,
                forall|i: int| 0 <= i < stripped@.len() ==> #[trigger] stripped@[i] == all[i].1,
            ensures
                reversed@.len() == 0,
            decreases reversed@.len(),
        {
            match reversed.pop() {
                Some(batch) => {
                    stripped.push(batch);
                },
                None => {
                    break ;
                },
            }
        }
        assert(stripped@ =~= values(all));
        stripped
    }
}

/// Where a batch goes: before the first larger index.
proof fn lemma_inserted_at<B>(batches: Seq<(usize, B)>, index: usize, batch: B, at: int)
    requires
        0 <= at <= batches.len(),
        forall|i: int| at <= i < batches.len() ==> (#[trigger] batches[i]).0 >= index,
        at > 0 ==> batches[at - 1].0 < index,
    ensures
        inserted(batches, index, batch) == batches.insert(at, (index, batch)),
    decreases batches.len(),
{
    if at == batches.len() {
        assert(batches.insert(at, (index, batch)) =~= batches.push((index, batch)));
    } else {
        let front = batches.drop_last();
        assert forall|i: int| at <= i < front.len() implies (#[trigger] front[i]).0 >= index by {
            assert(front[i] == batches[i]);
        }
        assert(batches[batches.len() - 1].0 >= index);
        lemma_inserted_at(front, index, batch, at);
        assert(batches.insert(at, (index, batch)) =~= front.insert(at, (index, batch)).push(
            batches.last(),
        ));
    }
}

/// Inserting keeps the indices increasing.
proof fn lemma_inserted_increasing<B>(batches: Seq<(usize, B)>, index: usize, batch: B)
    requires
        increasing(batches),
        !has_index(batches, index),
    ensures
        increasing(inserted(batches, index, batch)),
        forall|other: usize|
            has_index(inserted(batches, index, batch), other) ==> other == index || has_index(
                batches,
                other,
            ),
        inserted(batches, index, batch).len() == batches.len() + 1,
    decreases batches.len(),
{
    let result = inserted(batches, index, batch);
    if batches.len() == 0 || batches.last().0 < index {
        assert forall|i: int, j: int| 0 <= i < j < result.len() implies (#[trigger] result[i]).0 < (
        #[trigger] result[j]).0 by {
            if j == batches.len() {
                assert(batches[i].0 <= batches[batches.len() - 1].0);
            }
        }
        assert forall|other: usize| has_index(result, other) implies other == index || has_index(
            batches,
            other,
        ) by {
            let i = choose|i: int| 0 <= i < result.len() && (#[trigger] result[i]).0 == other;
            if i < batches.len() {
                assert(batches[i].0 == other);
            }
        }
    } else {
        let front = batches.drop_last();
        let last = batches.last();
        assert(batches[batches.len() - 1] == last);
        assert(increasing(front)) by {
            assert forall|i: int, j: int| 0 <= i < j < front.len() implies (#[trigger] front[i]).0
                < (#[trigger] front[j]).0 by {
                assert(batches[i].0 < batches[j].0);
            }
        }
        assert(!has_index(front, index)) by {
            if has_index(front, index) {
                let i = choose|i: int| 0 <= i < front.len() && (#[trigger] front[i]).0 == index;
                assert(batches[i].0 == index);
            }
        }
        lemma_inserted_increasing(front, index, batch);
        let inner = inserted(front, index, batch);
        assert(last.0 != index) by {
            if last.0 == index {
                assert(has_index(batches, index));
            }
        }
        assert forall|i: int, j: int| 0 <= i < j < result.len() implies (#[trigger] result[i]).0 < (
        #[trigger] result[j]).0 by {
            if j == inner.len() {
                let other = inner[i].0;
                assert(has_index(inner, other));
                if other != index {
                    assert(has_index(front, other));
                    let k = choose|k: int|
                        0 <= k < front.len() && (#[trigger] front[k]).0 == other;
                    assert(front[k] == batches[k]);
                    assert(batches[k].0 < batches[batches.len() - 1].0);
                }
                assert(result[i] == inner[i]);
            } else {
                assert(inner[i].0 < inner[j].0);
            }
        }
        assert forall|other: usize| has_index(result, other) implies other == index || has_index(
            batches,
            other,
        ) by {
            let i = choose|i: int| 0 <= i < result.len() && (#[trigger] result[i]).0 == other;
            if i < inner.len() {
                assert(has_index(inner, other)) by {
                    assert(inner[i].0 == other);
                }
                if other != index {
                    assert(has_index(front, other));
                    let k = choose|k: int|
                        0 <= k < front.len() && (#[trigger] front[k]).0 == other;
                    assert(front[k] == batches[k]);
                    assert(has_index(batches, other));
                }
            } else {
                assert(result[i] == batches[batches.len() - 1]);
                assert(has_index(batches, other));
            }
        }
    }
}

/// The order in which ranges finish does not show in the output.
pub proof fn law_completion_order<B>(
    batches: Seq<(usize, B)>,
    first: (usize, B),
    second: (usize, B),
)
    requires
        increasing(batches),
        !has_index(batches, first.0),
        !has_index(batches, second.0),
        first.0 != second.0,
    ensures
        inserted(inserted(batches, first.0, first.1), second.0, second.1) == inserted(
            inserted(batches, second.0, second.1),
            first.0,
            first.1,
        ),
        increasing(inserted(inserted(batches, first.0, first.1), second.0, second.1)),
    decreases batches.len(),
{
    lemma_inserted_increasing(batches, first.0, first.1);
    lemma_inserted_increasing(
        inserted(batches, first.0, first.1),
        second.0,
        second.1,
    );
    if batches.len() > 0 {
        let front = batches.drop_last();
        let last = batches.last();
        assert(batches[batches.len() - 1] == last);
        if last.0 > first.0 || last.0 > second.0 {
            assert(increasing(front)) by {
                assert forall|i: int, j: int| 0 <= i < j < front.len() implies (
                #[trigger] front[i]).0 < (#[trigger] front[j]).0 by {
                    assert(batches[i].0 < batches[j].0);
                }
            }
            assert(!has_index(front, first.0)) by {
                if has_index(front, first.0) {
                    let i = choose|i: int|
                        0 <= i < front.len() && (#[trigger] front[i]).0 == first.0;
                    assert(batches[i].0 == first.0);
                }
            }
            assert(!has_index(front, second.0)) by {
                if has_index(front, second.0) {
                    let i = choose|i: int|
                        0 <= i < front.len() && (#[trigger] front[i]).0 == second.0;
                    assert(batches[i].0 == second.0);
                }
            }
            assert(last.0 != first.0 && last.0 != second.0);
            law_completion_order(front, first, second);
        }
        let a = inserted(batches, first.0, first.1);
        let b = inserted(batches, second.0, second.1);
        assert(a.last() == if last.0 < first.0 { first } else { last });
        assert(b.last() == if last.0 < second.0 { second } else { last });
        if last.0 < first.0 {
            assert(a.drop_last() =~= batches);
        } else {
            assert(a.drop_last() =~= inserted(front, first.0, first.1));
        }
        if last.0 < second.0 {
            assert(b.drop_last() =~= batches);
        } else {
            assert(b.drop_last() =~= inserted(front, second.0, second.1));
        }
    } else {
        let a = inserted(batches, first.0, first.1);
        let b = inserted(batches, second.0, second.1);
        assert(a.drop_last() =~= batches);
        assert(b.drop_last() =~= batches);
        assert(inserted(a, second.0, second.1) =~= inserted(b, first.0, first.1));
    }
}

/// Counts the outputs that are still waited for.
pub struct DeliveryGuard {
    /// The outputs that were neither consumed nor dropped.
    pub undelivered: usize,
}

impl DeliveryGuard {
    /// Note that one output was consumed or dropped. Says whether it was the last, in which case
    /// there is nobody left to deliver to and the scan is cancelled.
    pub fn release(&mut self) -> (cancel: bool)
        requires
            old(self).undelivered > 0,
        ensures
            final(self).undelivered == old(self).undelivered - 1,
            cancel == (final(self).undelivered == 0),
    {
        self.undelivered = self.undelivered - 1;
        self.undelivered == 0
    }
}

/// Which group a scanned range completes, and its place in that group.
#[derive(Clone, Copy, Debug, Eq, PartialEq, Structural)]
pub struct CompletionTarget {
    /// The group.
    pub group: usize,
    /// The index of the range in the group.
    pub local_index: usize,
}

/// The group of one morsel that has ranges to scan.
#[derive(Clone, Copy, Debug, Eq, PartialEq, Structural)]
pub struct GroupPlan {
    /// The morsel, and so the output, the group is for.
    pub morsel: usize,
    /// The number of its ranges.
    pub ranges: usize,
    /// The cap on its output rows.
    pub row_cap: Option<usize>,
}

/// The work of an internally driven scan.
pub struct Assignment {
    /// The ranges to scan, in order.
    pub ranges: Vec<Range<u64>>,
    /// What each range completes.
    pub targets: Vec<CompletionTarget>,
    /// The groups.
    pub groups: Vec<GroupPlan>,
    /// The morsels of which nothing is left, whose outputs are empty at once.
    pub empty: Vec<usize>,
}

/// The cap of morsel `i`.
pub open spec fn cap_of(row_caps: Option<Vec<usize>>, i: int) -> Option<usize> {
    match row_caps {
        Some(caps) => Some(caps@[i]),
        None => None,
    }
}

/// The groups of the morsels that have ranges.
pub open spec fn groups_of(
    lists: Seq<Seq<Range<u64>>>,
    row_caps: Option<Vec<usize>>,
) -> Seq<GroupPlan>
    decreases lists.len(),
{
    if lists.len() == 0 {
        Seq::empty()
    } else {
        let before = groups_of(lists.drop_last(), row_caps);
        let i = lists.len() - 1;
        if lists.last().len() == 0 {
            before
        } else {
            before.push(
                GroupPlan {
                    morsel: i as usize,
                    ranges: lists.last().len() as usize,
                    row_cap: cap_of(row_caps, i),
                },
            )
        }
    }
}

/// The targets of the ranges of the morsels, one morsel after the other.
pub open spec fn targets_of(lists: Seq<Seq<Range<u64>>>, row_caps: Option<Vec<usize>>) -> Seq<
    CompletionTarget,
>
    decreases lists.len(),
{
    if lists.len() == 0 {
        Seq::empty()
    } else {
        let group = groups_of(lists.drop_last(), row_caps).len();
        targets_of(lists.drop_last(), row_caps) + Seq::new(
            lists.last().len(),
            |j: int| CompletionTarget { group: group as usize, local_index: j as usize },
        )
    }
}

/// The morsels without ranges.
pub open spec fn empty_of(lists: Seq<Seq<Range<u64>>>) -> Seq<usize>
    decreases lists.len(),
{
    if lists.len() == 0 {
        Seq::empty()
    } else if lists.last().len() == 0 {
        empty_of(lists.drop_last()).push((lists.len() - 1) as usize)
    } else {
        empty_of(lists.drop_last())
    }
}

/// Lay out the work of an internally driven scan over the pruned morsels: every range with the
/// output it belongs to, and the outputs that are empty at once.
pub fn assign_targets(morsels: Vec<SelectedMorsel>, row_caps: Option<Vec<usize>>) -> (assigned:
    Assignment)
    requires
        row_caps matches Some(caps) ==> caps@.len() >= morsels@.len(),
    ensures
        ({
            let lists = morsel_ranges(morsels@);
            &&& assigned.ranges@ == flattened(lists)
            &&& assigned.targets@ == targets_of(lists, row_caps)
            &&& assigned.groups@ == groups_of(lists, row_caps)
            &&& assigned.empty@ == empty_of(lists)
        }),
{
    let ghost lists = morsel_ranges(morsels@);
    let mut ranges: Vec<Range<u64>> = Vec::new();
    let mut targets: Vec<CompletionTarget> = Vec::new();
    let mut groups: Vec<GroupPlan> = Vec::new();
    let mut empty: Vec<usize> = Vec::new();
    let mut i: usize = 0;
    assert(lists.take(0) =~= Seq::empty());
    while i < morsels.len()
        invariant
            i <= morsels@.len(),
            lists == morsel_ranges(morsels@),
            row_caps matches Some(caps) ==> caps@.len() >= morsels@.len(),
            ranges@ == flattened(lists.take(i as int)),
            targets@ == targets_of(lists.take(i as int), row_caps),
            groups@ == groups_of(lists.take(i as int), row_caps),
            empty@ == empty_of(lists.take(i as int)),
        decreases morsels@.len() - i,
    {
        let ghost list = morsels@[i as int].selected_ranges@;
        assert(lists.take(i + 1).drop_last() =~= lists.take(i as int));
        assert(lists.take(i + 1).last() == list);
        let n: usize = morsels[i].selected_ranges.len();
        let group: usize = groups.len();
        let ghost ranges_before = ranges@;
        let ghost targets_before = targets@;
        let ghost wanted = Seq::new(
            list.len(),
            |j: int| CompletionTarget { group, local_index: j as usize },
        );
        let mut j: usize = 0;
        while j < n
            invariant
                i < morsels@.len(),
                j <= n,
                list == morsels@[i as int].selected_ranges@,
                n == list.len(),
                wanted == Seq::new(
                    list.len(),
                    |j: int| CompletionTarget { group, local_index: j as usize },
                ),
                ranges@ == ranges_before + list.take(j as int),
                targets@ == targets_before + wanted.take(j as int),
            decreases n - j,
        {
            let start: u64 = morsels[i].selected_ranges[j].start;
            let end: u64 = morsels[i].selected_ranges[j].end;
            ranges.push(start..end);
            targets.push(CompletionTarget { group, local_index: j });
            j = j + 1;
            assert(ranges@ =~= ranges_before + list.take(j as int));
            assert(targets@ =~= targets_before + wanted.take(j as int));
        }
        assert(list.take(j as int) =~= list);
        assert(wanted.take(j as int) =~= wanted);
        if n == 0 {
            empty.push(i);
        } else {
            let row_cap: Option<usize> = match &row_caps {
                Some(caps) => Some(caps[i]),
                None => None,
            };
            groups.push(GroupPlan { morsel: i, ranges: n, row_cap });
        }
        i = i + 1;
    }
    assert(lists.take(i as int) =~= lists);
    Assignment { ranges, targets, groups, empty }
}

/// Every range completes a place of its own in the group of its morsel.
pub proof fn law_targets_match_groups(
    lists: Seq<Seq<Range<u64>>>,
    row_caps: Option<Vec<usize>>,
    k: int,
)
    requires
        0 <= k < targets_of(lists, row_caps).len(),
        lists.len() <= usize::MAX,
        forall|i: int| 0 <= i < lists.len() ==> (#[trigger] lists[i]).len() <= usize::MAX,
    ensures
        targets_of(lists, row_caps).len() == flattened(lists).len(),
        ({
            let target = targets_of(lists, row_caps)[k];
            let groups = groups_of(lists, row_caps);
            &&& target.group < groups.len()
            &&& groups[target.group as int].morsel < lists.len()
            &&& target.local_index < lists[groups[target.group as int].morsel as int].len()
            &&& flattened(lists)[k] == lists[groups[target.group as int].morsel as int][
                target.local_index as int]
        }),
    decreases lists.len(),
{
    lemma_target_counts(lists, row_caps);
    let front = lists.drop_last();
    let before = targets_of(front, row_caps);
    lemma_target_counts(front, row_caps);
    assert forall|i: int| 0 <= i < front.len() implies (#[trigger] front[i]).len() <= usize::MAX by {
        assert(front[i] == lists[i]);
    }
    if k < before.len() {
        law_targets_match_groups(front, row_caps, k);
        let target = before[k];
        let groups = groups_of(front, row_caps);
        assert(groups_of(lists, row_caps)[target.group as int] == groups[target.group as int]);
        assert(front[groups[target.group as int].morsel as int]
            == lists[groups[target.group as int].morsel as int]);
    } else {
        lemma_group_count(front, row_caps);
        assert(lists[lists.len() - 1] == lists.last());
        assert(lists.last().len() <= usize::MAX);
    }
}

/// Whether a group is that of morsel `i`.
pub open spec fn is_group_of(
    group: GroupPlan,
    lists: Seq<Seq<Range<u64>>>,
    row_caps: Option<Vec<usize>>,
    i: int,
) -> bool {
    &&& group.morsel == i
    &&& group.ranges == lists[i].len()
    &&& group.row_cap == (match row_caps {
        Some(caps) => Some(caps@[i]),
        None => None,
    })
}

/// Every morsel that has ranges has one group, with as many ranges and its cap, in the order of the
/// morsels; every other one is among the empty ones.
pub proof fn law_groups_of_morsels(
    lists: Seq<Seq<Range<u64>>>,
    row_caps: Option<Vec<usize>>,
    i: int,
)
    requires
        0 <= i < lists.len() <= usize::MAX,
        forall|m: int| 0 <= m < lists.len() ==> (#[trigger] lists[m]).len() <= usize::MAX,
    ensures
        lists[i].len() > 0 <==> exists|g: int|
            0 <= g < groups_of(lists, row_caps).len() && is_group_of(
                #[trigger] groups_of(lists, row_caps)[g],
                lists,
                row_caps,
                i,
            ),
        lists[i].len() == 0 <==> empty_of(lists).contains(i as usize),
        groups_of(lists, row_caps).len() + empty_of(lists).len() == lists.len(),
{
    lemma_groups(lists, row_caps);
    let groups = groups_of(lists, row_caps);
    if exists|g: int|
        0 <= g < groups.len() && is_group_of(#[trigger] groups[g], lists, row_caps, i) {
        let g = choose|g: int|
            0 <= g < groups.len() && is_group_of(#[trigger] groups[g], lists, row_caps, i);
        assert(groups[g].ranges > 0);
    }
    if lists[i].len() > 0 {
        lemma_has_group(lists, row_caps, i);
    }
    lemma_empty(lists, i);
}

/// The groups are of morsels that have ranges, and all other morsels are empty.
proof fn lemma_groups(lists: Seq<Seq<Range<u64>>>, row_caps: Option<Vec<usize>>)
    requires
        lists.len() <= usize::MAX,
        forall|m: int| 0 <= m < lists.len() ==> (#[trigger] lists[m]).len() <= usize::MAX,
    ensures
        forall|g: int|
            0 <= g < groups_of(lists, row_caps).len() ==> (#[trigger] groups_of(
                lists,
                row_caps,
            )[g]).ranges > 0,
        groups_of(lists, row_caps).len() + empty_of(lists).len() == lists.len(),
    decreases lists.len(),
{
    if lists.len() > 0 {
        let front = lists.drop_last();
        assert forall|m: int| 0 <= m < front.len() implies (#[trigger] front[m]).len()
            <= usize::MAX by {
            assert(front[m] == lists[m]);
        }
        lemma_groups(front, row_caps);
        assert(lists[lists.len() - 1].len() <= usize::MAX);
    }
}

/// A morsel that has ranges has a group.
proof fn lemma_has_group(lists: Seq<Seq<Range<u64>>>, row_caps: Option<Vec<usize>>, i: int)
    requires
        0 <= i < lists.len() <= usize::MAX,
        lists[i].len() > 0,
        lists[i].len() <= usize::MAX,
    ensures
        exists|g: int|
            0 <= g < groups_of(lists, row_caps).len() && is_group_of(
                #[trigger] groups_of(lists, row_caps)[g],
                lists,
                row_caps,
                i,
            ),
    decreases lists.len(),
{
    let front = lists.drop_last();
    let groups = groups_of(lists, row_caps);
    if i < front.len() {
        lemma_has_group(front, row_caps, i);
        let before = groups_of(front, row_caps);
        let g = choose|g: int|
            0 <= g < before.len() && is_group_of(#[trigger] before[g], front, row_caps, i);
        assert(groups[g] == before[g]);
        assert(is_group_of(groups[g], lists, row_caps, i));
    } else {
        let g = groups.len() - 1;
        assert(is_group_of(groups[g], lists, row_caps, i));
    }
}

/// The empty morsels are those without ranges.
proof fn lemma_empty(lists: Seq<Seq<Range<u64>>>, i: int)
    requires
        0 <= i < usize::MAX,
        lists.len() <= usize::MAX,
    ensures
        empty_of(lists).contains(i as usize) <==> i < lists.len() && lists[i].len() == 0,
    decreases lists.len(),
{
    if lists.len() > 0 {
        let front = lists.drop_last();
        let before = empty_of(front);
        let all = empty_of(lists);
        let last = lists.len() - 1;
        lemma_empty(front, i);
        if i < front.len() {
            assert(front[i] == lists[i]);
        }
        if all.contains(i as usize) {
            let at = choose|at: int| 0 <= at < all.len() && all[at] == i as usize;
            if at < before.len() {
                assert(before[at] == i as usize);
            } else {
                assert(i == last);
            }
        }
        if before.contains(i as usize) {
            let at = choose|at: int| 0 <= at < before.len() && before[at] == i as usize;
            assert(all[at] == i as usize);
        }
        if i == last && lists.last().len() == 0 {
            assert(all[all.len() - 1] == i as usize);
        }
    }
}

proof fn lemma_target_counts(lists: Seq<Seq<Range<u64>>>, row_caps: Option<Vec<usize>>)
    ensures
        targets_of(lists, row_caps).len() == flattened(lists).len(),
    decreases lists.len(),
{
    if lists.len() > 0 {
        lemma_target_counts(lists.drop_last(), row_caps);
    }
}

proof fn lemma_group_count(lists: Seq<Seq<Range<u64>>>, row_caps: Option<Vec<usize>>)
    ensures
        groups_of(lists, row_caps).len() <= lists.len(),
    decreases lists.len(),
{
    if lists.len() > 0 {
        lemma_group_count(lists.drop_last(), row_caps);
    }
}

/// The threads of an internally driven scan: no more than there are ranges.
pub fn scan_threads(n_ranges: usize, max_threads: usize) -> (threads: usize)
    ensures
        threads == if n_ranges < max_threads {
            n_ranges
        } else {
            max_threads
        },
{
    if n_ranges < max_threads {
        n_ranges
    } else {
        max_threads
    }
}

/// One output of an externally driven scan: a morsel and the cap on its rows.
pub struct ExternalOutput {
    /// The morsel.
    pub morsel: SelectedMorsel,
    /// The cap on its output rows.
    pub row_cap: Option<usize>,
}

/// The scan of one output of an externally driven scan.
pub struct ExternalScan {
    /// The ranges to scan, in order.
    pub ranges: Vec<Range<u64>>,
    /// How they are scanned.
    pub config: ScanConfig,
    /// The cap on the output rows.
    pub row_cap: Option<usize>,
}

/// The scan of a pruned morsel: its ranges, its configuration and the cap on its rows, or `None`
/// when no row is left.
pub fn external_scan(
    io_policy: ExecutorIoPolicy,
    base: ScanConfig,
    pruned: SelectedMorsel,
    row_cap: Option<usize>,
    prefetch: bool,
) -> (scan: Option<ExternalScan>)
    ensures
        match scan {
            None => pruned.selected_ranges@.len() == 0,
            Some(scan) => {
                &&& scan.ranges@.len() > 0
                &&& scan.ranges@ == pruned.selected_ranges@
                &&& scan.config == io_policy.configured(base, ExecutorDriver::External, prefetch)
                &&& scan.row_cap == row_cap
            },
        },
{
    if pruned.selected_ranges.len() == 0 {
        return None;
    }
    let config = io_policy.configure(base, ExecutorDriver::External, prefetch);
    Some(ExternalScan { ranges: pruned.selected_ranges, config, row_cap })
}

impl ExternalScan {
    /// The output of the scan, given its batches in order, each with its number of rows; and the
    /// length to which it is cut, if it has more rows than the cap.
    pub fn finish<B>(&self, batches: Vec<(B, usize)>) -> (output: (Combined<B>, Option<usize>))
        ensures
            output.0.batches() == arrays(batches@),
            output.0.is_simplest(),
            output.1 == cut_of(rows_in(batches@), self.row_cap),
    {
        finish_output(batches, self.row_cap)
    }
}

/// The outputs of an externally driven scan: one per morsel, in order, each with its cap.
pub fn build_external_outputs(morsels: Vec<SelectedMorsel>, row_caps: Option<Vec<usize>>) -> (
    outputs: Vec<ExternalOutput>)
    requires
        row_caps matches Some(caps) ==> caps@.len() >= morsels@.len(),
    ensures
        outputs@.len() == morsels@.len(),
        forall|i: int|
            0 <= i < outputs@.len() ==> (#[trigger] outputs@[i]).morsel == morsels@[i]
                && outputs@[i].row_cap == cap_of(row_caps, i),
{
    let mut rest = morsels;
    let ghost all = rest@;
    let mut reversed: Vec<ExternalOutput> = Vec::new();
    loop
        invariant
            rest@.len() + reversed@.len() == all.len(),
            row_caps matches Some(caps) ==> caps@.len() >= all.len(),
            forall|i: int| 0 <= i < rest@.len() ==> #[trigger] rest@[i] == all[i],
            forall|i: int|
                0 <= i < reversed@.len() ==> (#[trigger] reversed@[i]).morsel == all[all.len() - 1
                    - i] && reversed@[i].row_cap == cap_of(row_caps, all.len() - 1 - i),
        ensures
            rest@.len() == 0,
        decreases rest@.len(),
    {
        match rest.pop() {
            Some(morsel) => {
                let row_cap: Option<usize> = match &row_caps {
                    Some(caps) => Some(caps[rest.len()]),
                    None => None,
                };
                reversed.push(ExternalOutput { morsel, row_cap });
            },
            None => {
                break ;
            },
        }
    }
    let mut outputs: Vec<ExternalOutput> = Vec::new();
    loop
        invariant
            reversed@.len() + outputs@.len() == all.len(),
            forall|i: int|
                0 <= i < reversed@.len() ==> (#[trigger] reversed@[i]).morsel == all[all.len() - 1
                    - i] && reversed@[i].row_cap == cap_of(row_caps, all.len() - 1 - i),
            forall|i: int|
                0 <= i < outputs@.len() ==> (#[trigger] outputs@[i]).morsel == all[i]
                    && outputs@[i].row_cap == cap_of(row_caps, i),
        ensures
            reversed@.len() == 0,
        decreases reversed@.len(),
    {
        match reversed.pop() {
            Some(output) => {
                outputs.push(output);
            },
            None => {
                break ;
            },
        }
    }
    outputs
}

/// The rows of batches add up, however the batches are split, and a single batch has its own.
pub proof fn law_rows_of_batches<B>(front: Seq<(B, usize)>, back: Seq<(B, usize)>, batch: (B, usize))
    ensures
        rows_in(front + back) == rows_in(front) + rows_in(back),
        rows_in(seq![batch]) == batch.1,
    decreases back.len(),
{
    reveal_with_fuel(rows_in, 2);
    assert(seq![batch].drop_last() =~= Seq::empty());
    if back.len() > 0 {
        law_rows_of_batches(front, back.drop_last(), batch);
        assert((front + back).drop_last() =~= front + back.drop_last());
    } else {
        assert(front + back =~= front);
    }
}

/// An output is cut exactly if it is longer than its cap, and then to the cap: it never has more rows
/// than its cap, and it has them all where they fit.
pub proof fn law_cut_to_cap(rows: usize, row_cap: Option<usize>)
    ensures
        ({
            let left: int = match cut_of(rows as int, row_cap) {
                Some(cut) => cut as int,
                None => rows as int,
            };
            &&& left <= rows
            &&& row_cap matches Some(cap) ==> left <= cap && (left == rows || left == cap)
            &&& row_cap is None ==> left == rows
        }),
{
}

/// A batch that comes in is kept, once and with its index, and so is every one that was there.
pub proof fn law_inserted_is_kept<B>(batches: Seq<(usize, B)>, index: usize, batch: B)
    ensures
        inserted(batches, index, batch).len() == batches.len() + 1,
        inserted(batches, index, batch).contains((index, batch)),
        forall|k: int|
            0 <= k < batches.len() ==> inserted(batches, index, batch).contains(
                #[trigger] batches[k],
            ),
    decreases batches.len(),
{
    let all = inserted(batches, index, batch);
    if batches.len() == 0 || batches.last().0 < index {
        assert(all[batches.len() as int] == (index, batch));
        assert forall|k: int| 0 <= k < batches.len() implies all.contains(
            #[trigger] batches[k],
        ) by {
            assert(all[k] == batches[k]);
        }
    } else {
        let front = batches.drop_last();
        let before = inserted(front, index, batch);
        law_inserted_is_kept(front, index, batch);
        let at = choose|at: int| 0 <= at < before.len() && before[at] == (index, batch);
        assert(all[at] == (index, batch));
        assert forall|k: int| 0 <= k < batches.len() implies all.contains(
            #[trigger] batches[k],
        ) by {
            if k < front.len() {
                assert(front[k] == batches[k]);
                let at = choose|at: int| 0 <= at < before.len() && before[at] == front[k];
                assert(all[at] == batches[k]);
            } else {
                assert(all[all.len() - 1] == batches[k]);
            }
        }
    }
}

} // verus!
