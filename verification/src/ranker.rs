//! The bounded ranking buffer: the best few of a stream of scored candidates.

use vstd::prelude::*;
use crate::distance::distance;
use crate::distance::edit_distance;
use crate::shift::insert_and_shift;
use crate::shift::shifted;

verus! {

/// One slot of a ranking: a candidate and how far it is from the query.
pub type Entry = (Seq<char>, nat);

/// The distance that marks a slot no candidate has taken yet. It is the
/// largest number there is: the distance between two sequences never exceeds
/// the length of the longer one, so every candidate is nearer than this.
pub const SENTINEL: usize = usize::MAX;

/// A ranking of `capacity` slots, none of them taken.
pub open spec fn blank(capacity: nat, sentinel: nat) -> Seq<Entry> {
    Seq::new(capacity, |i: int| (Seq::<char>::empty(), sentinel))
}

/// Whether the distances never decrease from one slot to the next.
pub open spec fn ascending(entries: Seq<Entry>) -> bool {
    forall|i: int, j: int| 0 <= i <= j < entries.len() ==> entries[i].1 <= entries[j].1
}

/// Whether a candidate at `distance` is better than the worst entry kept.
pub open spec fn makes_the_cut(entries: Seq<Entry>, distance: nat) -> bool {
    entries.len() > 0 && distance < entries.last().1
}

/// The first position at or after `from` whose entry is farther away than
/// `distance`; the length of `entries` when there is none.
pub open spec fn slot_from(entries: Seq<Entry>, distance: nat, from: int) -> int
    decreases entries.len() - from,
{
    if from < 0 || from >= entries.len() || distance < entries[from].1 {
        from
    } else {
        slot_from(entries, distance, from + 1)
    }
}

/// The first position whose entry is farther away than `distance`.
pub open spec fn slot_for(entries: Seq<Entry>, distance: nat) -> int {
    slot_from(entries, distance, 0)
}

/// The ranking after one more candidate was offered to it.
///
/// A candidate that is not better than the worst entry kept changes nothing.
/// Any other takes the first slot whose entry is farther away than it is; the
/// entries from there on move down by one slot and the last one is dropped.
pub open spec fn considered(entries: Seq<Entry>, word: Seq<char>, distance: nat) -> Seq<Entry> {
    if makes_the_cut(entries, distance) {
        shifted(entries, slot_for(entries, distance), (word, distance))
    } else {
        entries
    }
}

/// The ranking after the candidates of `inputs` were offered to it, one
/// after the other.
pub open spec fn after(entries: Seq<Entry>, inputs: Seq<Entry>) -> Seq<Entry>
    decreases inputs.len(),
{
    if inputs.len() == 0 {
        entries
    } else {
        considered(after(entries, inputs.drop_last()), inputs.last().0, inputs.last().1)
    }
}

/// Each of `words` with its distance from `query`.
pub open spec fn scored(query: Seq<char>, words: Seq<Seq<char>>) -> Seq<Entry> {
    Seq::new(words.len(), |i: int| (words[i], distance(query, words[i])))
}

/// The slot that `slot_from` finds lies between `from` and the end, has only
/// entries that are not farther away before it, and holds one that is.
pub proof fn slot_from_is_first(entries: Seq<Entry>, distance: nat, from: int)
    requires
        0 <= from <= entries.len(),
    ensures
        from <= slot_from(entries, distance, from) <= entries.len(),
        forall|i: int| from <= i < slot_from(entries, distance, from) ==> entries[i].1 <= distance,
        slot_from(entries, distance, from) < entries.len() ==> distance < entries[slot_from(
            entries,
            distance,
            from,
        )].1,
    decreases entries.len() - from,
{
    if from < entries.len() && distance >= entries[from].1 {
        slot_from_is_first(entries, distance, from + 1);
    }
}

/// A position that has only entries that are not farther away before it, and
/// holds one that is, is the one that `slot_for` finds.
pub proof fn slot_for_is_unique(entries: Seq<Entry>, distance: nat, slot: int)
    requires
        0 <= slot <= entries.len(),
        forall|i: int| 0 <= i < slot ==> entries[i].1 <= distance,
        slot < entries.len() ==> distance < entries[slot].1,
    ensures
        slot_for(entries, distance) == slot,
{
    slot_from_is_first(entries, distance, 0);
}

/// The entry of a slot that no candidate has taken.
pub open spec fn unused(sentinel: nat) -> Entry {
    (Seq::<char>::empty(), sentinel)
}

/// For each slot of the ranking that `inputs` leave in a blank buffer, the
/// position in `inputs` of the candidate that the slot holds; `-1` for a
/// slot that no candidate has taken.
pub open spec fn origins(capacity: nat, sentinel: nat, inputs: Seq<Entry>) -> Seq<int>
    decreases inputs.len(),
{
    if inputs.len() == 0 {
        Seq::new(capacity, |i: int| -1int)
    } else {
        let entries = after(blank(capacity, sentinel), inputs.drop_last());
        let sources = origins(capacity, sentinel, inputs.drop_last());
        if makes_the_cut(entries, inputs.last().1) {
            shifted(sources, slot_for(entries, inputs.last().1), inputs.len() - 1)
        } else {
            sources
        }
    }
}

/// Whether slot `i` is unused, or holds the input that `sources` names for
/// it, at a distance below the sentinel.
pub open spec fn slot_holds(
    entries: Seq<Entry>,
    sources: Seq<int>,
    sentinel: nat,
    inputs: Seq<Entry>,
    i: int,
) -> bool {
    if sources[i] < 0 {
        entries[i] == unused(sentinel)
    } else {
        sources[i] < inputs.len() && entries[i] == inputs[sources[i]] && entries[i].1 < sentinel
    }
}

/// Whether slot `i` may stand before slot `j`: it is nearer, or as near and
/// was offered earlier; an unused slot stands before unused ones only.
pub open spec fn in_order(entries: Seq<Entry>, sources: Seq<int>, i: int, j: int) -> bool {
    entries[i].1 < entries[j].1 || (entries[i].1 == entries[j].1 && (sources[j] < 0 || 0
        <= sources[i] < sources[j]))
}

/// Whether input `q` loses against the last slot: that slot is taken by a
/// candidate that is nearer, or as near and was offered earlier.
pub open spec fn beaten(entries: Seq<Entry>, sources: Seq<int>, inputs: Seq<Entry>, q: int) -> bool {
    sources.last() >= 0 && (entries.last().1 < inputs[q].1 || (entries.last().1 == inputs[q].1
        && sources.last() < q))
}

/// Whether `entries` are the best of `inputs`, in order: every slot is
/// unused or holds one of the inputs, the slots are ordered by distance and
/// among equals by arrival, and every input below the sentinel that has no
/// slot loses against the last one.
pub open spec fn explains(
    entries: Seq<Entry>,
    sources: Seq<int>,
    sentinel: nat,
    inputs: Seq<Entry>,
) -> bool {
    &&& entries.len() == sources.len()
    &&& forall|i: int|
        0 <= i < entries.len() ==> #[trigger] slot_holds(entries, sources, sentinel, inputs, i)
    &&& forall|i: int, j: int|
        0 <= i < j < entries.len() ==> #[trigger] in_order(entries, sources, i, j)
    &&& forall|q: int|
        0 <= q < inputs.len() && inputs[q].1 < sentinel && !sources.contains(q)
            ==> #[trigger] beaten(entries, sources, inputs, q)
}

/// Offering a candidate to a ranking changes neither its length nor the
/// order of its distances.
pub proof fn considered_keeps_shape(entries: Seq<Entry>, word: Seq<char>, distance: nat)
    requires
        ascending(entries),
    ensures
        considered(entries, word, distance).len() == entries.len(),
        ascending(considered(entries, word, distance)),
{
    slot_from_is_first(entries, distance, 0);
}

/// However many candidates are offered, the ranking keeps its length and its
/// distances never decrease from one slot to the next.
pub proof fn ranking_keeps_shape(entries: Seq<Entry>, inputs: Seq<Entry>)
    requires
        ascending(entries),
    ensures
        after(entries, inputs).len() == entries.len(),
        ascending(after(entries, inputs)),
    decreases inputs.len(),
{
    if inputs.len() > 0 {
        ranking_keeps_shape(entries, inputs.drop_last());
        considered_keeps_shape(
            after(entries, inputs.drop_last()),
            inputs.last().0,
            inputs.last().1,
        );
    }
}

/// A buffer that was offered fewer candidates than it has slots still holds
/// the empty candidate at the sentinel distance in the slots beyond their
/// number.
pub proof fn spare_slots_stay_unused(capacity: nat, sentinel: nat, inputs: Seq<Entry>)
    ensures
        after(blank(capacity, sentinel), inputs).len() == capacity,
        forall|i: int|
            inputs.len() <= i < capacity ==> after(blank(capacity, sentinel), inputs)[i] == unused(
                sentinel,
            ),
    decreases inputs.len(),
{
    if inputs.len() > 0 {
        let earlier = inputs.drop_last();
        let entries = after(blank(capacity, sentinel), earlier);
        spare_slots_stay_unused(capacity, sentinel, earlier);
        slot_from_is_first(entries, inputs.last().1, 0);
        if makes_the_cut(entries, inputs.last().1) && inputs.len() <= capacity {
            assert(entries[earlier.len() as int] == unused(sentinel));
            assert(entries[capacity - 1] == unused(sentinel));
        }
    }
}

/// A candidate that does not make the cut leaves a ranking that explains
/// the inputs before it one that explains them with the candidate added.
proof fn rejected_input_is_explained(
    entries: Seq<Entry>,
    sources: Seq<int>,
    sentinel: nat,
    earlier: Seq<Entry>,
    input: Entry,
)
    requires
        entries.len() > 0,
        explains(entries, sources, sentinel, earlier),
        !makes_the_cut(entries, input.1),
    ensures
        explains(entries, sources, sentinel, earlier.push(input)),
{
    let inputs = earlier.push(input);
    let last = entries.len() - 1;
    assert(slot_holds(entries, sources, sentinel, earlier, last));
    assert forall|i: int| 0 <= i < entries.len() implies #[trigger] slot_holds(
        entries,
        sources,
        sentinel,
        inputs,
        i,
    ) by {
        assert(slot_holds(entries, sources, sentinel, earlier, i));
    }
    assert forall|q: int|
        0 <= q < inputs.len() && inputs[q].1 < sentinel && !sources.contains(
            q,
        ) implies #[trigger] beaten(entries, sources, inputs, q) by {
        if q < earlier.len() {
            assert(beaten(entries, sources, earlier, q));
        }
    }
}

/// In a ranking that takes a candidate in, every slot still holds what its
/// source names.
proof fn accepted_input_is_held(
    entries: Seq<Entry>,
    sources: Seq<int>,
    sentinel: nat,
    earlier: Seq<Entry>,
    input: Entry,
    slot: int,
)
    requires
        explains(entries, sources, sentinel, earlier),
        makes_the_cut(entries, input.1),
        slot == slot_for(entries, input.1),
    ensures
        0 <= slot < entries.len(),
        forall|i: int|
            0 <= i < entries.len() ==> #[trigger] slot_holds(
                shifted(entries, slot, input),
                shifted(sources, slot, earlier.len() as int),
                sentinel,
                earlier.push(input),
                i,
            ),
{
    let inputs = earlier.push(input);
    let taken = shifted(entries, slot, input);
    let named = shifted(sources, slot, earlier.len() as int);
    let last = entries.len() - 1;
    slot_from_is_first(entries, input.1, 0);
    assert(slot_holds(entries, sources, sentinel, earlier, last));
    assert forall|i: int| 0 <= i < entries.len() implies #[trigger] slot_holds(
        taken,
        named,
        sentinel,
        inputs,
        i,
    ) by {
        if i < slot {
            assert(slot_holds(entries, sources, sentinel, earlier, i));
        } else if i > slot {
            assert(slot_holds(entries, sources, sentinel, earlier, i - 1));
        }
    }
}

/// In a ranking that takes a candidate in, the slots are still in order.
proof fn accepted_input_is_in_order(
    entries: Seq<Entry>,
    sources: Seq<int>,
    sentinel: nat,
    earlier: Seq<Entry>,
    input: Entry,
    slot: int,
)
    requires
        explains(entries, sources, sentinel, earlier),
        makes_the_cut(entries, input.1),
        slot == slot_for(entries, input.1),
    ensures
        forall|i: int, j: int|
            0 <= i < j < entries.len() ==> #[trigger] in_order(
                shifted(entries, slot, input),
                shifted(sources, slot, earlier.len() as int),
                i,
                j,
            ),
{
    let taken = shifted(entries, slot, input);
    let named = shifted(sources, slot, earlier.len() as int);
    slot_from_is_first(entries, input.1, 0);
    assert(slot_holds(entries, sources, sentinel, earlier, entries.len() - 1));
    assert forall|i: int, j: int| 0 <= i < j < entries.len() implies #[trigger] in_order(
        taken,
        named,
        i,
        j,
    ) by {
        if j < slot {
            assert(in_order(entries, sources, i, j));
        } else if j == slot {
            assert(slot_holds(entries, sources, sentinel, earlier, i));
        } else if i < slot {
            assert(in_order(entries, sources, i, j - 1));
        } else if i == slot {
            if slot < j - 1 {
                assert(in_order(entries, sources, slot, j - 1));
            }
        } else {
            assert(in_order(entries, sources, i - 1, j - 1));
        }
    }
}

/// In a ranking that takes a candidate in, every input that has no slot
/// loses against the last slot.
proof fn accepted_input_beats_the_rest(
    entries: Seq<Entry>,
    sources: Seq<int>,
    sentinel: nat,
    earlier: Seq<Entry>,
    input: Entry,
    slot: int,
)
    requires
        explains(entries, sources, sentinel, earlier),
        makes_the_cut(entries, input.1),
        slot == slot_for(entries, input.1),
    ensures
        forall|q: int|
            0 <= q <= earlier.len() && earlier.push(input)[q].1 < sentinel && !shifted(
                sources,
                slot,
                earlier.len() as int,
            ).contains(q) ==> #[trigger] beaten(
                shifted(entries, slot, input),
                shifted(sources, slot, earlier.len() as int),
                earlier.push(input),
                q,
            ),
{
    let inputs = earlier.push(input);
    let n = earlier.len() as int;
    let taken = shifted(entries, slot, input);
    let named = shifted(sources, slot, n);
    let last = entries.len() - 1;
    slot_from_is_first(entries, input.1, 0);
    assert(slot_holds(entries, sources, sentinel, earlier, last));
    assert(named[slot] == n);
    if slot < last {
        assert(in_order(entries, sources, last - 1, last));
        assert(slot_holds(entries, sources, sentinel, earlier, last - 1));
        assert(named[last] == sources[last - 1]);
        assert(taken[last] == entries[last - 1]);
    } else {
        assert(named[last] == n);
        assert(taken[last] == input);
    }
    assert forall|q: int|
        0 <= q <= n && inputs[q].1 < sentinel && !named.contains(q) implies #[trigger] beaten(
            taken,
            named,
            inputs,
            q,
        ) by {
        assert(q < n);
        if sources.contains(q) {
            let at = choose|at: int| 0 <= at < sources.len() && sources[at] == q;
            if at < slot {
                assert(named[at] == q);
            } else if at < last {
                assert(named[at + 1] == q);
            }
            assert(at == last);
        } else {
            assert(beaten(entries, sources, earlier, q));
        }
    }
}

/// The ranking that `inputs` leave in a blank buffer holds the best of them,
/// in order, and `origins` tells for each slot which input it holds.
pub proof fn ranking_is_explained(capacity: nat, sentinel: nat, inputs: Seq<Entry>)
    requires
        capacity > 0,
    ensures
        after(blank(capacity, sentinel), inputs).len() == capacity,
        explains(
            after(blank(capacity, sentinel), inputs),
            origins(capacity, sentinel, inputs),
            sentinel,
            inputs,
        ),
    decreases inputs.len(),
{
    let entries = after(blank(capacity, sentinel), inputs);
    let sources = origins(capacity, sentinel, inputs);
    ranking_keeps_shape(blank(capacity, sentinel), inputs);
    if inputs.len() == 0 {
        assert forall|i: int| 0 <= i < entries.len() implies #[trigger] slot_holds(
            entries,
            sources,
            sentinel,
            inputs,
            i,
        ) by {}
        assert forall|i: int, j: int| 0 <= i < j < entries.len() implies #[trigger] in_order(
            entries,
            sources,
            i,
            j,
        ) by {}
    } else {
        let earlier = inputs.drop_last();
        let input = inputs.last();
        let before = after(blank(capacity, sentinel), earlier);
        let named = origins(capacity, sentinel, earlier);
        ranking_is_explained(capacity, sentinel, earlier);
        assert(inputs =~= earlier.push(input));
        if makes_the_cut(before, input.1) {
            let slot = slot_for(before, input.1);
            accepted_input_is_held(before, named, sentinel, earlier, input, slot);
            accepted_input_is_in_order(before, named, sentinel, earlier, input, slot);
            accepted_input_beats_the_rest(before, named, sentinel, earlier, input, slot);
            assert(entries == shifted(before, slot, input));
            assert(sources == shifted(named, slot, earlier.len() as int));
        } else {
            rejected_input_is_explained(before, named, sentinel, earlier, input);
        }
    }
}

/// As long as every candidate is nearer than the sentinel, each of the first
/// slots is taken: as many of them as candidates were offered, or all.
pub proof fn first_slots_are_taken(capacity: nat, sentinel: nat, inputs: Seq<Entry>)
    requires
        forall|q: int| 0 <= q < inputs.len() ==> inputs[q].1 < sentinel,
    ensures
        origins(capacity, sentinel, inputs).len() == capacity,
        forall|i: int|
            0 <= i < capacity && i < inputs.len() ==> origins(capacity, sentinel, inputs)[i] >= 0,
    decreases inputs.len(),
{
    if inputs.len() > 0 {
        let earlier = inputs.drop_last();
        let input = inputs.last();
        let before = after(blank(capacity, sentinel), earlier);
        let named = origins(capacity, sentinel, earlier);
        let n = earlier.len() as int;
        first_slots_are_taken(capacity, sentinel, earlier);
        spare_slots_stay_unused(capacity, sentinel, earlier);
        slot_from_is_first(before, input.1, 0);
        if n < capacity {
            assert(before[n] == unused(sentinel));
            assert(before[capacity - 1] == unused(sentinel));
            assert(makes_the_cut(before, input.1));
            assert(slot_for(before, input.1) <= n);
        }
    }
}

/// No candidate is nearer than the one in the first slot.
pub proof fn nearest_comes_first(capacity: nat, sentinel: nat, inputs: Seq<Entry>, q: int)
    requires
        capacity > 0,
        0 <= q < inputs.len(),
    ensures
        after(blank(capacity, sentinel), inputs)[0].1 <= inputs[q].1,
{
    let entries = after(blank(capacity, sentinel), inputs);
    let sources = origins(capacity, sentinel, inputs);
    ranking_is_explained(capacity, sentinel, inputs);
    let last = entries.len() - 1;
    assert(slot_holds(entries, sources, sentinel, inputs, 0));
    if 0 < last {
        assert(in_order(entries, sources, 0, last));
    }
    if sources.contains(q) {
        let at = choose|at: int| 0 <= at < sources.len() && sources[at] == q;
        assert(slot_holds(entries, sources, sentinel, inputs, at));
        if 0 < at {
            assert(in_order(entries, sources, 0, at));
        }
    } else if inputs[q].1 < sentinel {
        assert(beaten(entries, sources, inputs, q));
    }
}

/// Of two candidates at the same distance, the one that was offered first
/// comes first: where the later one has a slot, the earlier one has a slot
/// before it.
pub proof fn earlier_of_equals_comes_first(
    capacity: nat,
    sentinel: nat,
    inputs: Seq<Entry>,
    first: int,
    second: int,
    slot: int,
)
    requires
        0 <= first < second < inputs.len(),
        inputs[first].1 == inputs[second].1,
        0 <= slot < capacity,
        origins(capacity, sentinel, inputs)[slot] == second,
    ensures
        exists|before: int|
            0 <= before < slot && origins(capacity, sentinel, inputs)[before] == first && after(
                blank(capacity, sentinel),
                inputs,
            )[before] == inputs[first],
{
    let entries = after(blank(capacity, sentinel), inputs);
    let sources = origins(capacity, sentinel, inputs);
    ranking_is_explained(capacity, sentinel, inputs);
    let last = entries.len() - 1;
    assert(slot_holds(entries, sources, sentinel, inputs, slot));
    if slot < last {
        assert(in_order(entries, sources, slot, last));
    }
    if !sources.contains(first) {
        assert(beaten(entries, sources, inputs, first));
    }
    let before = choose|before: int| 0 <= before < sources.len() && sources[before] == first;
    assert(slot_holds(entries, sources, sentinel, inputs, before));
    if slot < before {
        assert(in_order(entries, sources, slot, before));
    }
}

/// The reason a ranker could not be made.
#[derive(Clone, Copy, Debug, PartialEq, Eq, Structural)]
pub enum RankError {
    /// A ranking needs at least one slot.
    ZeroCapacity,
}

/// A ranking buffer of fixed length: the candidates nearest to the query
/// among those offered so far, nearest first.
pub struct Ranker<'a> {
    words: Vec<&'a str>,
    dists: Vec<usize>,
}

impl<'a> View for Ranker<'a> {
    type V = Seq<Entry>;

    closed spec fn view(&self) -> Seq<Entry> {
        Seq::new(self.dists@.len(), |i: int| (self.words@[i]@, self.dists@[i] as nat))
    }
}

impl<'a> Ranker<'a> {
    /// Whether the buffer holds a candidate for every distance.
    pub closed spec fn paired(&self) -> bool {
        self.words@.len() == self.dists@.len()
    }

    /// Whether the buffer is one that `new` made and `consider` filled: it
    /// has at least one slot, a candidate for every distance, and its
    /// distances never decrease.
    pub open spec fn wf(&self) -> bool {
        &&& self.paired()
        &&& self@.len() > 0
        &&& ascending(self@)
    }

    /// A ranker of `capacity` slots.
    ///
    /// Every slot starts out with an empty candidate at the sentinel
    /// distance, which is above the distance of any candidate from any query.
    pub fn new(capacity: usize) -> (made: Result<Ranker<'a>, RankError>)
        ensures
            capacity == 0 <==> made is Err,
            made matches Err(error) ==> error == RankError::ZeroCapacity,
            made matches Ok(ranker) ==> ranker.wf() && ranker@ == blank(
                capacity as nat,
                SENTINEL as nat,
            ),
    {
        if capacity == 0 {
            return Err(RankError::ZeroCapacity);
        }
        let words: Vec<&'a str> = vec![""; capacity];
        let dists: Vec<usize> = vec![SENTINEL; capacity];
        proof {
            reveal_strlit("");
        }
        assert(""@ =~= Seq::<char>::empty());
        let ranker = Ranker { words, dists };
        assert(ranker@ =~= blank(capacity as nat, SENTINEL as nat));
        Ok(ranker)
    }

    /// Offer one candidate with its distance from the query, which is below
    /// the sentinel as every distance between two sequences is.
    pub fn consider(&mut self, candidate: &'a str, distance: usize)
        requires
            old(self).wf(),
            distance < SENTINEL,
        ensures
            final(self).wf(),
            final(self)@ == considered(old(self)@, candidate@, distance as nat),
            final(self)@.len() == old(self)@.len(),
    {
        let ghost before = self@;
        let number = self.dists.len();
        if distance >= self.dists[number - 1] {
            return;
        }
        let mut i: usize = 0;
        while distance >= self.dists[i]
            invariant
                0 <= i < number,
                number == self.dists@.len(),
                distance < self.dists@[number - 1],
                forall|p: int| 0 <= p < i ==> self.dists@[p] <= distance,
            decreases number - i,
        {
            i += 1;
        }
        proof {
            slot_for_is_unique(before, distance as nat, i as int);
        }
        insert_and_shift(&mut self.dists, i, distance);
        insert_and_shift(&mut self.words, i, candidate);
        assert(self@ =~= shifted(before, i as int, (candidate@, distance as nat)));
    }

    /// The ranking as it stands: every slot with its candidate and distance,
    /// nearest first.
    pub fn results(&self) -> (list: Vec<(&'a str, usize)>)
        requires
            self.wf(),
        ensures
            entries_of(list@) == self@,
            list@.len() == self@.len(),
            list@.len() > 0,
            ascending(entries_of(list@)),
    {
        let mut list: Vec<(&'a str, usize)> = Vec::new();
        let number = self.dists.len();
        for i in 0..number
            invariant
                number == self.dists@.len(),
                number == self.words@.len(),
                list@.len() == i,
                forall|p: int|
                    0 <= p < i ==> (#[trigger] list@[p]).0@ == self.words@[p]@ && list@[p].1
                        == self.dists@[p],
        {
            list.push((self.words[i], self.dists[i]));
        }
        assert(entries_of(list@) =~= self@);
        list
    }
}

/// What a list of results says: each candidate as a sequence of characters,
/// with its distance.
pub open spec fn entries_of(list: Seq<(&str, usize)>) -> Seq<Entry> {
    Seq::new(list.len(), |i: int| (list[i].0@, list[i].1 as nat))
}

/// The text of each candidate of a list.
pub open spec fn texts(candidates: Seq<&str>) -> Seq<Seq<char>> {
    Seq::new(candidates.len(), |i: int| candidates[i]@)
}

/// Rank `candidates` by their edit distance from `query` and return the
/// `number` nearest, nearest first; among candidates at the same distance
/// the one that comes first in `candidates` stays first.
///
/// The list always has `number` entries. Where there are fewer candidates
/// than that, each of them is listed, and the slots behind them hold the
/// empty candidate at the sentinel distance. A `number` of zero is refused.
pub fn closest_matches<'a>(query: &[char], candidates: &[&'a str], number: usize) -> (found: Result<
    Vec<(&'a str, usize)>,
    RankError,
>)
    requires
        forall|i: int|
            0 <= i < candidates@.len() ==> (query@.len() + 1) * ((#[trigger] candidates@[i])@.len()
                + 1) <= usize::MAX,
    ensures
        number == 0 <==> found is Err,
        found matches Err(error) ==> error == RankError::ZeroCapacity,
        found matches Ok(list) ==> {
            let inputs = scored(query@, texts(candidates@));
            let sources = origins(number as nat, SENTINEL as nat, inputs);
            &&& entries_of(list@) == after(blank(number as nat, SENTINEL as nat), inputs)
            &&& list@.len() == number
            &&& ascending(entries_of(list@))
            &&& explains(entries_of(list@), sources, SENTINEL as nat, inputs)
            &&& forall|i: int| 0 <= i < number && i < candidates@.len() ==> sources[i] >= 0
            &&& forall|i: int|
                candidates@.len() <= i < number ==> entries_of(list@)[i] == unused(SENTINEL as nat)
            &&& forall|i: int|
                0 <= i < number && i < candidates@.len() ==> (#[trigger] list@[i]).1 == distance(
                    query@,
                    list@[i].0@,
                )
            &&& forall|q: int|
                0 <= q < candidates@.len() ==> list@[0].1 <= distance(
                    query@,
                    (#[trigger] candidates@[q])@,
                )
        },
{
    let mut ranker = match Ranker::new(number) {
        Ok(ranker) => ranker,
        Err(error) => {
            return Err(error);
        },
    };
    let ghost start = blank(number as nat, SENTINEL as nat);
    let ghost inputs = scored(query@, texts(candidates@));
    for at in 0..candidates.len()
        invariant
            ranker.wf(),
            ranker@ == after(start, inputs.take(at as int)),
            inputs == scored(query@, texts(candidates@)),
            forall|i: int|
                0 <= i < candidates@.len() ==> (query@.len() + 1) * ((
                #[trigger] candidates@[i])@.len() + 1) <= usize::MAX,
    {
        let word: &'a str = candidates[at];
        let dist = edit_distance(query, word);
        proof {
            below_sentinel(query@, word@);
        }
        ranker.consider(word, dist);
        proof {
            let grown = inputs.take(at + 1);
            assert(grown.drop_last() =~= inputs.take(at as int));
            assert(grown.last() == (word@, dist as nat));
        }
    }
    let list = ranker.results();
    proof {
        assert(inputs.take(candidates@.len() as int) =~= inputs);
        let entries = entries_of(list@);
        let sources = origins(number as nat, SENTINEL as nat, inputs);
        ranking_is_explained(number as nat, SENTINEL as nat, inputs);
        spare_slots_stay_unused(number as nat, SENTINEL as nat, inputs);
        assert forall|q: int| 0 <= q < inputs.len() implies inputs[q].1 < SENTINEL as nat by {
            below_sentinel(query@, candidates@[q]@);
        }
        first_slots_are_taken(number as nat, SENTINEL as nat, inputs);
        assert forall|i: int| 0 <= i < number && i < candidates@.len() implies (
        #[trigger] list@[i]).1 == distance(query@, list@[i].0@) by {
            assert(slot_holds(entries, sources, SENTINEL as nat, inputs, i));
        }
        assert forall|q: int| 0 <= q < candidates@.len() implies list@[0].1 <= distance(
            query@,
            (#[trigger] candidates@[q])@,
        ) by {
            nearest_comes_first(number as nat, SENTINEL as nat, inputs, q);
        }
    }
    Ok(list)
}

/// A distance whose table can be addressed is below the sentinel.
proof fn below_sentinel(a: Seq<char>, b: Seq<char>)
    requires
        (a.len() + 1) * (b.len() + 1) <= usize::MAX,
    ensures
        distance(a, b) < SENTINEL,
{
    crate::distance::distance_bounds(a, b);
    assert(a.len() + 1 <= (a.len() + 1) * (b.len() + 1) && b.len() + 1 <= (a.len() + 1) * (
    b.len() + 1)) by (nonlinear_arith);
}

} // verus!
