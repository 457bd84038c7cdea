//! Verified containers and algorithms: ring-buffer stack and queue, history,
//! binary heap, deque, trie, permutations, shuffling, palindromic radii and
//! network-flow solvers.

mod text;
mod error;
mod ring;
mod collection;
mod circular_stack;
mod circular_queue;
mod history;
mod order;
mod priority_queue;
mod linked_deque;
mod trie;
mod manacher;
mod flow;
mod dinic;
mod isap;
mod mcmf;
mod pricing;
mod flow_messages;
mod permutation;
mod shuffle;
mod observable;
mod traits;

pub use error::{StackError, QueueError};
pub use collection::{Collection, Disposable};
pub use circular_stack::{CircularStack, index_in};
pub use circular_queue::CircularQueue;
pub use ring::{keep_last, keep_first, filter_kept, predicate_answers};
pub use manacher::{manacher_by, manacher, manacher_str, odd_ok, even_ok, is_odd_radius, is_even_radius, are_radii, is_equivalence, answers, well_behaved};
pub use flow::{ArcView, residual, partner, net_out, valid_flow, cap_sum, cut_edges, caps_of, closed, crosses, same_network, is_max_flow, flows_fit, residual_reach, reach_side, lemma_flow_le_cut, lemma_max_flow, lemma_cut_saturated, cuts_at_least, lemma_reach_cut};
pub use dinic::{Dinic, DinicEdge, DinicError, arc_of, arcs_of};
pub use isap::{Isap, IsapEdge, IsapError, isap_arc, isap_arcs};
pub use mcmf::{Mcmf, McmfEdge, McmfError, McmfOptions, McmfResult, McmfShortestPathStrategy, DEFAULT_INF, mcmf_arc, mcmf_arcs, mcmf_costs, flow_cost, costs_fit, reached_cut, finite_side, max_abs_cost, max_abs_cost_upto, mcmf_in_range, lemma_strategies_agree};
pub use pricing::{reduced_cost, feasible_prices, has_feasible_prices, least_cost, lemma_prices_least_cost, lemma_least_cost_unique};
pub use error::{HistoryError, TrieError};
pub use history::{History, Equivalence, DefaultEquals, FnEquals, push_outcome, push_answered, rearranged_present, below_present, indexed_answers, lemma_rearrange_cursor_on_last_kept, lemma_rearrange_cursor_on_first_kept, lemma_rearrange_nothing_kept};
pub use order::{le, lt, total_order, lemma_le_reflexive};
pub use priority_queue::{PriorityQueue, is_heap, heap_from, lemma_heap_root_min, sift_up, sift_down};
pub use linked_deque::LinkedDeque;
pub use trie::{Trie, TrieOptions, TrieNodeData, MAX_NODE_INDEX, max_node_count, Walk, walk_from, index_error, insert_walk, creation_error, functional, mappable, merge_total, slots, slot_of, prefix_of, has_prefix, inserted, retain_answers, matches_upto, walk_reach, match_list, range_ok, digit_idx, uppercase_idx, lowercase_idx, alpha_numeric_idx, is_alpha_numeric, alpha_numeric_slot};
pub use permutation::{next_permutation, prev_permutation, PermutationIndices, permutation_indices, for_each_permutation, precedes, rise_at, last_rise, last_above, perm_step, next_perm, prev_perm, lex_less, index_range, rank, code, lemma_next_prev_roundtrip, lemma_prev_next_roundtrip, lemma_next_is_greater, lemma_prev_is_smaller, lemma_wrap_around, lemma_next_is_least_greater, lemma_prev_is_greatest_smaller, lemma_no_step_is_extreme, lemma_next_reaches, lemma_indices_reach_all, next_walk, walk_found, called_with, visits_all, factorial, arrangements, lemma_arrangements_count, lemma_indices_count};
pub use order::{comparisons_specified, ord_agrees};
pub use shuffle::{knuth_shuffle, knuth_shuffle_with, knuth_shuffle_range, knuth_shuffle_range_with, random_int, random_int_from, next_state, xorshift, NONZERO_STATE, clamp_to, fisher_yates, span_of, rng_answers, offsets_in_range, rng_in_range};
pub use observable::{SchedulerHandle, ObservableError, ObservableNotifyError, NextOptions, SubscribeOptions, ObserveOptions, NextStep, NotifyState, PendingValues, next_tick, observe_decision, ticker_next};
pub use traits::{StackLike, CircularStackLike, QueueLike, DequeLike, CircularQueueLike, PriorityQueueLike, HistoryLike, DinicLike, IsapLike, McmfLike};
pub use trie::{lemma_insert_then_get, lemma_insert_then_remove, lemma_insert_size, lemma_key_has_prefix, lemma_slot_sorted_distinct, differs_at, slot_less, slot_sorted, below_keys, listed_before};
pub use shuffle::{lemma_fisher_yates_outside, lemma_same_answers_same_shuffle, lemma_shuffle_last_place_first, lemma_shuffle_injective, lemma_shuffle_reaches_all};
