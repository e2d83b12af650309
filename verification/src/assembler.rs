//! Putting the chunks of control messages together again, in whatever order they come.

use crate::control;
use crate::control::{ControlChunk, ControlChunkView};
use crate::error::Error;
use std::collections::HashMap;
use vstd::prelude::*;

verus! {

broadcast use vstd::std_specs::hash::group_hash_axioms;

/// The chunks of one message that have arrived, by index.
pub type Slots = Seq<Option<Seq<u8>>>;

/// Collects chunks until a message is whole.
#[derive(Debug)]
pub struct ControlAssembler {
    in_flight: HashMap<u32, Vec<Option<Vec<u8>>>>,
}

/// One slot as a mathematical value.
pub open spec fn slot_view(slot: Option<Vec<u8>>) -> Option<Seq<u8>> {
    match slot {
        Some(part) => Some(part@),
        None => None,
    }
}

/// The slots of one message as a mathematical value.
pub open spec fn slots_view(slots: Seq<Option<Vec<u8>>>) -> Slots {
    Seq::new(slots.len(), |i: int| slot_view(slots[i]))
}

impl View for ControlAssembler {
    type V = Map<u32, Slots>;

    closed spec fn view(&self) -> Map<u32, Slots> {
        Map::new(
            |id: u32| self.in_flight@.dom().contains(id),
            |id: u32| slots_view(self.in_flight@[id]@),
        )
    }
}

/// No chunk of a message of `total` chunks has arrived yet.
pub open spec fn empty_slots(total: nat) -> Slots {
    Seq::new(total, |i: int| None)
}

/// Every chunk has arrived.
pub open spec fn all_arrived(slots: Slots) -> bool {
    forall|i: int| 0 <= i < slots.len() ==> (#[trigger] slots[i]) is Some
}

/// The arrived parts, one after the other.
pub open spec fn joined(slots: Slots) -> Seq<u8>
    decreases slots.len(),
{
    if slots.len() == 0 {
        Seq::empty()
    } else {
        joined(slots.drop_last()) + slots.last().unwrap()
    }
}

/// The slots of the chunk's message before the chunk arrives.
pub open spec fn slots_before(state: Map<u32, Slots>, chunk: ControlChunkView) -> Slots {
    if state.dom().contains(chunk.message_id) {
        state[chunk.message_id]
    } else {
        empty_slots(chunk.total_chunks as nat)
    }
}

/// The slots of the chunk's message once the chunk has arrived.
pub open spec fn slots_after(state: Map<u32, Slots>, chunk: ControlChunkView) -> Slots {
    slots_before(state, chunk).update(chunk.chunk_index as int, Some(chunk.payload))
}

/// What a chunk leads to: the message it completes, nothing yet, or a refusal.
pub open spec fn push_result(state: Map<u32, Slots>, chunk: ControlChunkView) -> Result<
    Option<Seq<u8>>,
    Error,
> {
    if slots_before(state, chunk).len() != chunk.total_chunks {
        Err(
            Error::ChunkTotalMismatch {
                message_id: chunk.message_id,
                existing: slots_before(state, chunk).len() as usize,
                got: chunk.total_chunks,
            },
        )
    } else if all_arrived(slots_after(state, chunk)) {
        Ok(Some(joined(slots_after(state, chunk))))
    } else {
        Ok(None)
    }
}

/// The messages in flight after a chunk: a refused chunk changes nothing, a message that
/// became whole is forgotten, and no other message is touched.
pub open spec fn push_state(state: Map<u32, Slots>, chunk: ControlChunkView) -> Map<u32, Slots> {
    match push_result(state, chunk) {
        Err(_) => state,
        Ok(Some(_)) => state.remove(chunk.message_id),
        Ok(None) => state.insert(chunk.message_id, slots_after(state, chunk)),
    }
}

/// A result of `push_chunk` as a mathematical value.
pub open spec fn push_viewed(r: Result<Option<Vec<u8>>, Error>) -> Result<Option<Seq<u8>>, Error> {
    match r {
        Ok(Some(message)) => Ok(Some(message@)),
        Ok(None) => Ok(None),
        Err(e) => Err(e),
    }
}

impl Default for ControlAssembler {
    fn default() -> (assembler: Self)
        ensures
            assembler@ == Map::<u32, Slots>::empty(),
    {
        let assembler = ControlAssembler { in_flight: HashMap::new() };
        assert(assembler@ =~= Map::<u32, Slots>::empty());
        assembler
    }
}

impl ControlAssembler {
    /// Takes in one chunk. Returns the message when the chunk is the last one missing.
    /// Refused when the message is known with another number of chunks.
    pub fn push_chunk(&mut self, chunk: ControlChunk) -> (r: Result<Option<Vec<u8>>, Error>)
        requires
            slots_before(old(self)@, chunk@).len() == chunk.total_chunks ==> chunk.chunk_index
                < chunk.total_chunks,
        ensures
            push_viewed(r) == push_result(old(self)@, chunk@),
            final(self)@ == push_state(old(self)@, chunk@),
    {
        let ghost before = self@;
        let total: usize = chunk.total_chunks as usize;
        let mut slots: Vec<Option<Vec<u8>>> = match self.in_flight.remove(&chunk.message_id) {
            Some(slots) => slots,
            None => fresh_slots(total),
        };
        assert(self@ =~= before.remove(chunk.message_id));
        assert(slots_view(slots@) =~= slots_before(before, chunk@));
        if slots.len() != total {
            let existing: usize = slots.len();
            self.in_flight.insert(chunk.message_id, slots);
            assert(self@ =~= before);
            return Err(
                Error::ChunkTotalMismatch {
                    message_id: chunk.message_id,
                    existing,
                    got: chunk.total_chunks,
                },
            );
        }
        slots[chunk.chunk_index as usize] = Some(chunk.payload);
        assert(slots_view(slots@) =~= slots_after(before, chunk@));
        if is_complete(&slots) {
            return Ok(Some(join(&slots)));
        }
        self.in_flight.insert(chunk.message_id, slots);
        assert(self@ =~= before.insert(chunk.message_id, slots_after(before, chunk@)));
        Ok(None)
    }
}

/// `total` empty slots.
fn fresh_slots(total: usize) -> (slots: Vec<Option<Vec<u8>>>)
    ensures
        slots_view(slots@) == empty_slots(total as nat),
{
    let mut slots: Vec<Option<Vec<u8>>> = Vec::new();
    let mut i: usize = 0;
    while i < total
        invariant
            i <= total,
            slots@.len() == i,
            forall|j: int| 0 <= j < i ==> (#[trigger] slots@[j]) is None,
        decreases total - i,
    {
        slots.push(None);
        i = i + 1;
    }
    assert(slots_view(slots@) =~= empty_slots(total as nat));
    slots
}

/// Whether every slot is filled.
fn is_complete(slots: &Vec<Option<Vec<u8>>>) -> (complete: bool)
    ensures
        complete == all_arrived(slots_view(slots@)),
{
    let mut i: usize = 0;
    while i < slots.len()
        invariant
            i <= slots@.len(),
            forall|j: int| 0 <= j < i ==> (#[trigger] slots_view(slots@)[j]) is Some,
        decreases slots@.len() - i,
    {
        if slots[i].is_none() {
            assert(slots_view(slots@)[i as int] is None);
            return false;
        }
        i = i + 1;
    }
    true
}

/// The filled slots, one after the other.
fn join(slots: &Vec<Option<Vec<u8>>>) -> (message: Vec<u8>)
    requires
        all_arrived(slots_view(slots@)),
    ensures
        message@ == joined(slots_view(slots@)),
{
    let ghost view = slots_view(slots@);
    let mut message: Vec<u8> = Vec::new();
    let mut i: usize = 0;
    while i < slots.len()
        invariant
            i <= slots@.len(),
            view == slots_view(slots@),
            all_arrived(view),
            message@ == joined(view.take(i as int)),
        decreases slots@.len() - i,
    {
        assert(view.take(i + 1).drop_last() =~= view.take(i as int));
        assert(view[i as int] is Some);
        if let Some(part) = &slots[i] {
            crate::codec::push_bytes(&mut message, part.as_slice());
        }
        i = i + 1;
    }
    assert(view.take(slots@.len() as int) =~= view);
    message
}

/// The messages in flight after all of `chunks`, in order.
pub open spec fn push_all(state: Map<u32, Slots>, chunks: Seq<ControlChunkView>) -> Map<u32, Slots>
    decreases chunks.len(),
{
    if chunks.len() == 0 {
        state
    } else {
        push_state(push_all(state, chunks.drop_last()), chunks.last())
    }
}

/// Chunk number `i` of message `message_id` is among `chunks`.
pub open spec fn has_arrived(chunks: Seq<ControlChunkView>, message_id: u32, i: int) -> bool {
    exists|k: int|
        0 <= k < chunks.len() && (#[trigger] chunks[k]).message_id == message_id
            && chunks[k].chunk_index == i
}

/// Those of `chunks` that name message `message_id` are chunks of `message`.
pub open spec fn carries(
    chunks: Seq<ControlChunkView>,
    message_id: u32,
    message: Seq<u8>,
) -> bool {
    forall|k: int|
        0 <= k < chunks.len() && (#[trigger] chunks[k]).message_id == message_id ==> {
            &&& chunks[k].chunk_index < control::chunk_count(message.len())
            &&& chunks[k] == control::chunk_of(message_id, message, chunks[k].chunk_index as int)
        }
}

/// The slots of a message of which `chunks` have arrived.
pub open spec fn slots_of(
    chunks: Seq<ControlChunkView>,
    message_id: u32,
    message: Seq<u8>,
) -> Slots {
    Seq::new(
        control::chunk_count(message.len()),
        |i: int|
            if has_arrived(chunks, message_id, i) {
                Some(control::chunk_part(message, i))
            } else {
                None
            },
    )
}

/// The parts of a message, joined, are the message.
proof fn lemma_parts_join(message: Seq<u8>, slots: Slots, n: nat)
    requires
        slots.len() == control::chunk_count(message.len()),
        forall|i: int|
            0 <= i < slots.len() ==> #[trigger] slots[i] == Some(control::chunk_part(message, i)),
        n <= slots.len(),
    ensures
        joined(slots.take(n as int)) == message.take(
            if n == slots.len() {
                message.len() as int
            } else {
                n * control::MAX_CHUNK_PAYLOAD
            },
        ),
    decreases n,
{
    if n == 0 {
        assert(joined(slots.take(0)) =~= message.take(0));
    } else {
        let i = n - 1;
        lemma_parts_join(message, slots, i as nat);
        control::lemma_chunk_bounds(message.len(), i);
        assert(slots.take(n as int).drop_last() =~= slots.take(i));
        assert(slots.take(n as int).last() == slots[i]);
        assert(joined(slots.take(n as int)) =~= message.take(
            if n == slots.len() {
                message.len() as int
            } else {
                n * control::MAX_CHUNK_PAYLOAD
            },
        ));
    }
}

/// As long as a chunk is missing, exactly the arrived parts are in the slots.
proof fn lemma_progress(
    state: Map<u32, Slots>,
    chunks: Seq<ControlChunkView>,
    message_id: u32,
    message: Seq<u8>,
    missing: int,
)
    requires
        control::chunk_count(message.len()) <= u16::MAX,
        !state.dom().contains(message_id),
        carries(chunks, message_id, message),
        0 <= missing < control::chunk_count(message.len()),
        !has_arrived(chunks, message_id, missing),
    ensures
        ({
            let after = push_all(state, chunks);
            if after.dom().contains(message_id) {
                after[message_id] == slots_of(chunks, message_id, message)
            } else {
                slots_of(chunks, message_id, message) == empty_slots(
                    control::chunk_count(message.len()),
                )
            }
        }),
    decreases chunks.len(),
{
    let slots = slots_of(chunks, message_id, message);
    if chunks.len() == 0 {
        assert(slots =~= empty_slots(control::chunk_count(message.len())));
    } else {
        let earlier = chunks.drop_last();
        let chunk = chunks.last();
        let before = push_all(state, earlier);
        assert forall|k: int| 0 <= k < earlier.len() implies earlier[k] == chunks[k] by {}
        assert forall|i: int|
            has_arrived(chunks, message_id, i) == (has_arrived(earlier, message_id, i) || (
            chunk.message_id == message_id && chunk.chunk_index == i)) by {
            if has_arrived(earlier, message_id, i) {
                let k = choose|k: int|
                    0 <= k < earlier.len() && (#[trigger] earlier[k]).message_id == message_id
                        && earlier[k].chunk_index == i;
                assert(chunks[k] == earlier[k]);
            }
            if chunk.message_id == message_id && chunk.chunk_index == i {
                assert(chunks[chunks.len() - 1] == chunk);
            }
            if has_arrived(chunks, message_id, i) {
                let k = choose|k: int|
                    0 <= k < chunks.len() && (#[trigger] chunks[k]).message_id == message_id
                        && chunks[k].chunk_index == i;
                if k < earlier.len() {
                    assert(earlier[k] == chunks[k]);
                }
            }
        }
        lemma_progress(state, earlier, message_id, message, missing);
        let slots_earlier = slots_of(earlier, message_id, message);
        if chunk.message_id == message_id {
            assert(chunks[chunks.len() - 1] == chunk);
            assert(slots_before(before, chunk) =~= slots_earlier);
            assert(slots_after(before, chunk) =~= slots);
            assert(slots[missing] is None);
        } else {
            assert(slots =~= slots_earlier);
        }
    }
}

/// A message comes out whole whatever the order of its chunks, whatever chunks come twice
/// and whatever chunks of other messages come in between: the chunk that was the last one
/// missing completes it, no earlier chunk does, and the assembler then forgets it.
pub proof fn law_assembles_in_any_order(
    state: Map<u32, Slots>,
    chunks: Seq<ControlChunkView>,
    message_id: u32,
    message: Seq<u8>,
)
    requires
        control::chunk_count(message.len()) <= u16::MAX,
        !state.dom().contains(message_id),
        carries(chunks, message_id, message),
        chunks.len() > 0,
        chunks.last().message_id == message_id,
        !has_arrived(chunks.drop_last(), message_id, chunks.last().chunk_index as int),
        forall|i: int|
            0 <= i < control::chunk_count(message.len()) ==> #[trigger] has_arrived(
                chunks,
                message_id,
                i,
            ),
    ensures
        push_result(push_all(state, chunks.drop_last()), chunks.last()) == Ok::<
            Option<Seq<u8>>,
            Error,
        >(Some(message)),
        !push_all(state, chunks).dom().contains(message_id),
        forall|n: int|
            0 <= n < chunks.len() - 1 && (#[trigger] chunks[n]).message_id == message_id
                ==> push_result(push_all(state, chunks.take(n)), chunks[n]) == Ok::<
                Option<Seq<u8>>,
                Error,
            >(None),
{
    let earlier = chunks.drop_last();
    let chunk = chunks.last();
    let before = push_all(state, earlier);
    let missing = chunk.chunk_index as int;
    assert(chunks[chunks.len() - 1] == chunk);
    assert(forall|k: int| 0 <= k < earlier.len() ==> earlier[k] == chunks[k]);
    assert(carries(earlier, message_id, message));
    lemma_progress(state, earlier, message_id, message, missing);
    let after = slots_after(before, chunk);
    assert(slots_before(before, chunk) =~= slots_of(earlier, message_id, message));
    assert forall|i: int| 0 <= i < after.len() implies #[trigger] after[i] == Some(
        control::chunk_part(message, i),
    ) by {
        if i != missing {
            assert(has_arrived(chunks, message_id, i));
            let k = choose|k: int|
                0 <= k < chunks.len() && (#[trigger] chunks[k]).message_id == message_id
                    && chunks[k].chunk_index == i;
            assert(earlier[k] == chunks[k]);
            assert(has_arrived(earlier, message_id, i));
        }
    }
    lemma_parts_join(message, after, after.len());
    assert(after.take(after.len() as int) =~= after);
    assert(message.take(message.len() as int) =~= message);
    assert forall|n: int|
        0 <= n < chunks.len() - 1 && (#[trigger] chunks[n]).message_id == message_id implies
        push_result(push_all(state, chunks.take(n)), chunks[n]) == Ok::<Option<Seq<u8>>, Error>(
        None,
    ) by {
        let prefix = chunks.take(n);
        assert(forall|k: int| 0 <= k < prefix.len() ==> prefix[k] == chunks[k]);
        assert(!has_arrived(prefix, message_id, missing)) by {
            if has_arrived(prefix, message_id, missing) {
                let k = choose|k: int|
                    0 <= k < prefix.len() && (#[trigger] prefix[k]).message_id == message_id
                        && prefix[k].chunk_index == missing;
                assert(earlier[k] == chunks[k]);
            }
        }
        assert(carries(prefix, message_id, message));
        lemma_progress(state, prefix, message_id, message, missing);
        let slots = slots_before(push_all(state, prefix), chunks[n]);
        assert(slots =~= slots_of(prefix, message_id, message));
        assert(earlier[n] == chunks[n]);
        assert(slots_after(push_all(state, prefix), chunks[n])[missing] is None);
    }
}

/// What one chunk does. Where its message is known with another number of chunks it is refused, and
/// nothing changes. Else it is put in its place, over an earlier copy, and the other places stay as
/// they are. The message comes back just when no place is left, and is then forgotten. No other
/// message is touched.
pub proof fn law_chunk_is_put_in_its_place(
    state: Map<u32, Slots>,
    chunk: ControlChunkView,
    other: u32,
    i: int,
)
    requires
        chunk.chunk_index < chunk.total_chunks,
        0 <= i < chunk.total_chunks,
    ensures
        ({
            let id = chunk.message_id;
            let known = state.contains_key(id);
            let r = push_result(state, chunk);
            let after = push_state(state, chunk);
            &&& other != id ==> after.contains_key(other) == state.contains_key(other)
                && after[other] == state[other]
            &&& known && state[id].len() != chunk.total_chunks ==> {
                &&& r == Err::<Option<Seq<u8>>, Error>(
                    Error::ChunkTotalMismatch {
                        message_id: id,
                        existing: state[id].len() as usize,
                        got: chunk.total_chunks,
                    },
                )
                &&& after == state
            }
            &&& !known || state[id].len() == chunk.total_chunks ==> {
                &&& r is Ok
                &&& r->Ok_0 is Some <==> !after.contains_key(id)
                &&& r->Ok_0 is None ==> {
                    &&& after[id].len() == chunk.total_chunks
                    &&& after[id][chunk.chunk_index as int] == Some(chunk.payload)
                    &&& i != chunk.chunk_index ==> after[id][i] == if known {
                        state[id][i]
                    } else {
                        None
                    }
                    &&& exists|j: int|
                        0 <= j < chunk.total_chunks && (#[trigger] after[id][j]) is None
                }
                &&& r->Ok_0 is Some && i != chunk.chunk_index ==> known && state[id][i] is Some
            }
        }),
{
    let id = chunk.message_id;
    let before = slots_before(state, chunk);
    let slots = slots_after(state, chunk);
    let after = push_state(state, chunk);
    if before.len() == chunk.total_chunks {
        assert(slots.len() == chunk.total_chunks);
        assert(slots[chunk.chunk_index as int] == Some(chunk.payload));
        if i != chunk.chunk_index {
            assert(slots[i] == before[i]);
        }
        if all_arrived(slots) {
            assert(slots[i] is Some);
            assert(after == state.remove(id));
        } else {
            assert(after == state.insert(id, slots));
            assert(after[id] == slots);
            let j = choose|j: int| 0 <= j < slots.len() && (#[trigger] slots[j]) is None;
            assert(after[id][j] is None);
        }
    } else {
        assert(after == state);
    }
}

/// A message of one chunk comes back at once, as it is.
pub proof fn law_single_chunk_is_the_message(state: Map<u32, Slots>, chunk: ControlChunkView)
    requires
        chunk.chunk_index == 0,
        chunk.total_chunks == 1,
        !state.contains_key(chunk.message_id),
    ensures
        push_result(state, chunk) == Ok::<Option<Seq<u8>>, Error>(Some(chunk.payload)),
        push_state(state, chunk) == state,
{
    let slots = slots_after(state, chunk);
    assert(slots.len() == 1 && slots[0] == Some(chunk.payload));
    assert(joined(slots.drop_last()) =~= Seq::empty());
    assert(joined(slots) =~= chunk.payload);
    assert(push_state(state, chunk) =~= state);
}

/// The parts of a message come back in the order of their places: a message of which only the chunk
/// at the last place was missing is what the other places hold together, and then that chunk.
pub proof fn law_parts_are_joined_in_order(slots: Slots, part: Seq<u8>)
    ensures
        joined(Seq::empty()) == Seq::<u8>::empty(),
        joined(slots.push(Some(part))) == joined(slots) + part,
{
    assert(slots.push(Some(part)).drop_last() =~= slots);
}

} // verus!
