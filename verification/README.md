# linked-queue

A FIFO queue whose elements are keyed: an arena-backed doubly-linked list plus
a hash index. Push and pop at both ends, lookup, removal and splicing by key
all take constant time. The library is written in Verus, and what it does is
stated in contracts and proved. The time that it takes is not among what is
proved.

## Model

A `LinkedQueue<K, V>` stands for `self@`, the sequence of its `(key, value)`
pairs, head first. `self.wf()` is its invariant, which every constructor
establishes and every operation keeps: the list is linked soundly in both
directions, each cell of the arena is in use or on the free list, and the index
leads from each key to its node. So no key occurs twice. `self.slot_count()`
is the number of cells of the arena, and `self.reports(c)` says that the queue,
asked for its capacity, may answer `c`. Which answer that is depends on the
allocator; the contracts say how it compares with the one before.

Operations that store keys ask that the key type is lawful: its `Hash` and `Eq`
obey vstd's model of a hash table's key, and a clone of a key is that key.

## Layout

- `src/model.rs`: the sequences that the contracts speak of
- `src/queue/`: the queue, its operations, its iterators and standard traits
- `src/error.rs`: why an insertion is refused
- `src/laws.rs`: what holds between the operations
- `src/oracle.rs`: a queue run side by side with a `VecDeque`
- `tests/`: the same on concrete values
- `app/`: standard traits that need a formatter or an arbitrary iterator, and
  the fuzz target

## What is trusted

What the standard library documents of the room of its collections, in
`src/queue/room.rs`:

- `Vec::capacity`: it is not less than the length.
- `Vec::with_capacity`: the capacity is then at least the one asked for.
- `Vec::reserve`: the capacity is then at least the length plus what was asked
  for, and not less than before.
- `Vec::push`: the capacity is then what it was, where that sufficed, and not
  less otherwise.
- `Vec::clear`, and an element lent out for writing: the capacity is then what
  it was.
- `HashMap::capacity`, `HashMap::with_capacity`, `HashMap::reserve`: the same
  lower bounds.
- `HashMap::clear`: the capacity is then not less than before.

And, in `src/queue/edit.rs`:

- `Iterator::size_hint`: nothing is claimed of it.
