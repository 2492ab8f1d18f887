# codex-context-tree

A context tree for a conversation history: every history item becomes an
entry leaf, grouped under the label chain that describes it (task, role,
call, tool), with per-node selection, collapse state and summaries. The
history records its edits in a mutation recorder; a commit replays them into
the cache, so that entry ids always equal history indices, and the tree's
selection decides which items go into the next prompt.

The library is verified with Verus. Its contracts are stated over plain
mathematical models (`Seq`, `Map`, views of each type), and its laws are
public proof functions:

- `replay::lemma_commit_replays_history`: a commit leaves the cache keyed by
  the pending history's indices, each kept entry under its new index.
- `replay::lemma_commit_keeps_selection`: a commit keeps every selection and
  collapse state the user set, selects every new entry and leaves it
  expanded.
- `history::lemma_chosen_items_exactly`: the next prompt gets exactly the
  items whose entry is selected or not yet committed, in order; no
  unchecked item is ever sent.
- `counts::lemma_summary_keeps_selection`: summaries never touch selections.
- `history::ContextManager::lemma_recorder_mirrors_items`: the recorder always
  describes the items, one pending slot per item.
- `normalize::lemma_normalized_history`: after normalization every call has
  its output and every output its call.
- `recorder::lemma_commit_reports_exactly` and `recorder::lemma_commit_order`:
  a commit reports exactly one index change per moved entry, one insert per
  new entry and one remove per dropped entry, slot mutations first in
  position order and removes after them in index order.
- `selection::lemma_insert_places_leaf`, `selection::lemma_rename_keeps_groups`
  and `selection::lemma_toggle_selected_flips_listed`: an insert puts the leaf
  at its label path, a rename keeps the groups and recomputes their minima,
  a toggle flips exactly the listed nodes.
- `selection::lemma_insert_path_minima` and
  `selection::lemma_renamed_groups_hold_least_ids`: an insert lowers each
  minimum on its path to exactly the smaller of the old value and the new
  index; after a rename every group's minimum is the least index in its
  subtree.
- `replay::lemma_committed_selection_is_cached`: after a commit every
  selected id is a cached entry.
- `items::lemma_task_labels_share_a_branch`: entries of one task share their
  first label, no label chain names the conversation, and a call and its
  output get the same chain.
- `recorder`, `selection`, `session`, `overlay` and `markdown` hold smaller
  laws (a commit after a commit is empty, a toggle undone by the same toggle,
  a toggled row is uniformly checked, emphasis loses only its markers, ...).

Layout:

- `src/`: the verified library (`recorder`, `tree`, `cache`, `summarizer`,
  `client`, `replay`, `counts`, `selection` for the tree crate; `items`,
  `normalize`, `prompt`, `history` for the history; `markdown`, `overlay` for
  the overlay's logic; `text` for string helpers).
- `tests/`: tests run against the compiled library.
- `app/`: what is not verified: the asynchronous model interface and the
  commit loops that feed its replies to the summary pass, and the terminal
  side of the overlay (ratatui drawing, crossterm keys).
