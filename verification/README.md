# skiplist

Two ordered skip structures, verified with Verus.

- `skip_list::SkipLinkedList` keeps its items in a leaf level under levels of
  index nodes. Each index node covers a group of nodes of the level below and
  the range of the items under them; groups are split when they grow past two
  children and merged when two neighbours are down to one child each.
- `list::SkipList` is a tower skip list: every item stands in a tower of nodes,
  one per level, and a level is added on top over every other node of the top
  level once that level holds more than two nodes.

Every level is a `Vec`; node `i` of a level links to node `i + 1`, and a link
downward is the index of a node in the level below. Items are ordered by the
integer key of the `order::Ordered` trait, implemented for the integer types.

Layout of `src/`:

- `order.rs`: the ordering trait.
- `skip_node/`, `leaf_node/`, `internal_node/`, `forest.rs`: nodes, links,
  ranges and the levels of `SkipLinkedList`, with insertion, split and merge.
- `skip_list/`: `SkipLinkedList`, its iterator, and the proofs that its
  operations keep the structure ordered (`shape*.rs`).
- `node/`, `list/`: the nodes and levels of `SkipList`, the list, its growth,
  its iterators, and the proofs about its shape.
