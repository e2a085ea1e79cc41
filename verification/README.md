# tiri_layout

The window-tiling logic of a compositor: a tree of split, tabbed and stacked
containers holding windows, the commands that change it (insert, remove, focus,
move, split, change layout, move root columns), the tab bar arithmetic, the
scrolling-space facade over the tree, and the swipe-gesture state machine.

Windows are named by `u64` ids. Every command is verified with Verus against a
mathematical model of the tree (`Tree` / `TreeState` in
`src/layout/container/model.rs`), and the laws that tie commands together are
proved in `src/layout/container/laws.rs` (the tab bar laws are in
`src/layout/tab_bar.rs`).

Behaviour of the tree, as the contracts state it:

- Splitting: on an empty tree the layout is kept for the next window's root container;
  a root window is wrapped; the only window of a split container turns that container's
  orientation; a window whose container already has the requested layout stays as it is,
  except at a root container with several children, where it is wrapped.
- Removing: emptied containers are removed, other containers (single-child wrappers
  included) stay; a root container left with one child gives way to it; the focused window
  keeps the focus when it stays; when the tree empties, the last root layout is kept.
- Focus: moves to the neighbour in the nearest container along the focus path that
  moves focus that way (splits along their axis, tabbed and stacked containers in every
  direction), then descends through focused children.
- Moving: a window swaps with its neighbour in a container that moves windows along that
  axis (splits along their axis, tabs left/right, stacks up/down); it enters a neighbouring split
  of the other orientation next to that split's focused child, on the side it comes from;
  otherwise it leaves its container for the grandparent, next to the container (a
  single-child wrapper is dissolved and the window changes places with its neighbour).
  A child of the root that moves across the root's axis leaves the root (a root left with
  one child gives way to it) and becomes the first or last child of the rest of the tree,
  which is wrapped in a split along the move's axis unless it already is one.
  No move or removal leaves an empty container behind.
- Not done: a window at the edge of a container that moves along its axis does not leave
  it; leaving a container never enters a neighbouring container of the grandparent;
  changing a layout never merges nested containers.

Layout:

- `src/input/scroll_swipe_gesture.rs` — gesture state machine (integer deltas).
- `src/layout/container.rs` — the container tree and its commands.
- `src/layout/container/` — model, command specifications (`behavior.rs`),
  lemmas and laws.
- `src/layout/tab_bar.rs` — tab widths, cells, separators, hit testing.
- `src/layout/scrolling.rs` — `ScrollingSpace` and `Column`.
- `app/` — unverified floating-point geometry (rectangles, size shares,
  scroll accumulation, float gesture input) built on the library.
- `tests/` — scenarios and concrete checks of the laws.
