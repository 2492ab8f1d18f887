//! The client: the recorder, the cache and the summarizer together.
use vstd::prelude::*;

use crate::cache::{applied, empty_tree, CacheModel, ContextTreeCache};
use crate::counts::{
    indexed_leaves, lemma_new_model_counts, lemma_summary_keeps_selection, lemma_toggles_keep_indexed,
};
use crate::replay::{
    in_step, lemma_applied_nothing, lemma_commit_keeps_selection, lemma_commit_replays_history,
    selection_after_commit,
};
use crate::tree::selected_ids;
use crate::recorder::{commit_mutations, mirrors, recorder_wf, HistoryMutationRecorder, RecorderModel};
use crate::summarizer::{summarized_tree, ContextTreeSummarizer};
use crate::text::views;
use crate::tree::{toggled_collapsed, toggled_selected};

verus! {

/// The recorder that core feeds, the cache it commits into, and the
/// summarizer that keeps the summaries.
#[derive(Debug)]
pub struct ContextTreeClient<M> {
    summarizer: ContextTreeSummarizer<M>,
    cache: ContextTreeCache,
    recorder: HistoryMutationRecorder,
}

impl<M> ContextTreeClient<M> {
    /// The client's invariant: the cache's and the recorder's.
    pub closed spec fn inv(&self) -> bool {
        self.cache.inv() && recorder_wf(self.recorder@)
    }

    /// The cache as plain values.
    pub closed spec fn cache_view(&self) -> CacheModel {
        self.cache@
    }

    /// The recorder as plain values.
    pub closed spec fn recorder_view(&self) -> RecorderModel {
        self.recorder@
    }

    /// The model that long summaries are asked of, if any.
    pub closed spec fn stored_model(&self) -> Option<M> {
        self.summarizer.stored_model()
    }

    /// Whether long summaries are asked of a model.
    pub open spec fn uses_model(&self) -> bool {
        self.stored_model() is Some
    }

    /// A client with an empty cache and a recorder for an empty history.
    pub fn new(model: Option<M>) -> (c: Self)
        ensures
            c.inv(),
            c.cache_view() == (CacheModel { entries: Map::empty(), tree: empty_tree() }),
            c.recorder_view() == (RecorderModel { history_len: 0, slots: mirrors(0) }),
            c.stored_model() == model,
            in_step(c.cache_view(), c.recorder_view()),
    {
        let c = ContextTreeClient {
            summarizer: ContextTreeSummarizer::new(model),
            cache: ContextTreeCache::new(),
            recorder: HistoryMutationRecorder::new(0),
        };
        proof {
            assert forall|id: Seq<char>| #[trigger] crate::counts::leaf_total(empty_tree(), id) == 0 by {
                lemma_new_model_counts(seq!['r', 'o', 'o', 't'], Seq::empty(), id, true, false);
                lemma_new_model_counts(seq!['r', 'o', 'o', 't'], Seq::empty(), id, false, false);
            }
            assert(indexed_leaves(empty_tree(), 0));
        }
        c
    }

    /// The recorder, to record history mutations in.
    pub fn recorder(&mut self) -> (r: &mut HistoryMutationRecorder)
        requires
            old(self).inv(),
        ensures
            r@ == old(self).recorder_view(),
            recorder_wf(old(self).recorder_view()),
            final(self).cache_view() == old(self).cache_view(),
            final(self).recorder_view() == final(r)@,
            final(self).stored_model() == old(self).stored_model(),
            recorder_wf(final(r)@) ==> final(self).inv(),
    {
        &mut self.recorder
    }

    /// The cache.
    pub fn cache(&self) -> (c: &ContextTreeCache)
        ensures
            c@ == self.cache_view(),
            self.inv() ==> c.inv(),
    {
        &self.cache
    }

    /// The summarizer.
    pub fn summarizer(&self) -> (s: &ContextTreeSummarizer<M>)
        ensures
            s.stored_model() == self.stored_model(),
    {
        &self.summarizer
    }

    /// Flips `selected` on every node and leaf of the tree whose id is listed.
    pub fn toggle_selected(&mut self, node_ids: &[String])
        requires
            old(self).inv(),
        ensures
            final(self).inv(),
            final(self).cache_view() == (CacheModel {
                tree: toggled_selected(old(self).cache_view().tree, views(node_ids@)),
                ..old(self).cache_view()
            }),
            final(self).recorder_view() == old(self).recorder_view(),
            final(self).stored_model() == old(self).stored_model(),
            in_step(old(self).cache_view(), old(self).recorder_view()) ==> in_step(
                final(self).cache_view(),
                final(self).recorder_view(),
            ),
    {
        self.cache.toggle_selected(node_ids);
        proof {
            if in_step(old(self).cache_view(), old(self).recorder_view()) {
                lemma_toggles_keep_indexed(
                    old(self).cache_view().tree,
                    old(self).recorder_view().history_len,
                    views(node_ids@),
                );
            }
        }
    }

    /// Flips `collapsed` on every node and leaf of the tree whose id is listed.
    pub fn toggle_collapsed(&mut self, node_ids: &[String])
        requires
            old(self).inv(),
        ensures
            final(self).inv(),
            final(self).cache_view() == (CacheModel {
                tree: toggled_collapsed(old(self).cache_view().tree, views(node_ids@)),
                ..old(self).cache_view()
            }),
            final(self).recorder_view() == old(self).recorder_view(),
            final(self).stored_model() == old(self).stored_model(),
            in_step(old(self).cache_view(), old(self).recorder_view()) ==> in_step(
                final(self).cache_view(),
                final(self).recorder_view(),
            ),
    {
        self.cache.toggle_collapsed(node_ids);
        proof {
            if in_step(old(self).cache_view(), old(self).recorder_view()) {
                lemma_toggles_keep_indexed(
                    old(self).cache_view().tree,
                    old(self).recorder_view().history_len,
                    views(node_ids@),
                );
            }
        }
    }

    /// Commits the recorder into the cache and runs a summary pass with no
    /// model reply at hand. Returns the text whose summary the model is to
    /// give, if the pass needs one (then `resume_summary` goes on with it).
    pub fn commit_history_mutation(&mut self) -> (pending: Option<String>)
        requires
            old(self).inv(),
        ensures
            final(self).inv(),
            final(self).recorder_view() == (RecorderModel {
                history_len: old(self).recorder_view().slots.len(),
                slots: mirrors(old(self).recorder_view().slots.len()),
            }),
            final(self).stored_model() == old(self).stored_model(),
            commit_mutations(old(self).recorder_view()).len() == 0 ==> final(self).cache_view()
                == old(self).cache_view() && pending is None,
            commit_mutations(old(self).recorder_view()).len() > 0 ==> ({
                let c1 = applied(old(self).cache_view(), commit_mutations(old(self).recorder_view()));
                match summarized_tree(c1.tree, c1.entries, Seq::empty(), old(self).uses_model()) {
                    Ok(t) => pending is None && final(self).cache_view() == (CacheModel { tree: t, ..c1 }),
                    Err(c) => pending matches Some(p) && p@ == c && final(self).cache_view() == c1,
                }
            }),
            in_step(old(self).cache_view(), old(self).recorder_view()) && old(self).recorder_view().slots.len()
                <= i64::MAX ==> in_step(final(self).cache_view(), final(self).recorder_view()) && forall|x: i64|
                #[trigger] selected_ids(final(self).cache_view().tree).contains(x) <==> selection_after_commit(
                    old(self).cache_view().tree,
                    old(self).recorder_view().slots,
                    x,
                ),
    {
        let ghost c0 = self.cache@;
        let ghost r0 = self.recorder@;
        let mutations = self.recorder.commit();
        if mutations.is_empty() {
            proof {
                if in_step(c0, r0) && r0.slots.len() <= i64::MAX {
                    assert(commit_mutations(r0) =~= Seq::empty());
                    lemma_applied_nothing(c0);
                    lemma_commit_keeps_selection(c0, r0);
                    lemma_commit_replays_history(c0, r0);
                }
            }
            return None;
        }
        let pending = self.cache.apply_mutations(&self.summarizer, mutations);
        proof {
            if in_step(c0, r0) && r0.slots.len() <= i64::MAX {
                lemma_commit_keeps_selection(c0, r0);
                lemma_commit_replays_history(c0, r0);
                let c1 = applied(c0, commit_mutations(r0));
                lemma_summary_keeps_selection(c1.tree, c1.entries, Seq::empty(), self.summarizer.uses_model(), r0.slots.len());
            }
        }
        pending
    }

    /// A summary pass with the summaries that the model gave so far (each
    /// resolved by `resolve_model_reply`), in the order the nodes asked for
    /// them. Returns the text of the next node whose summary is missing (the
    /// cache as it was), or `None` with the tree summarized.
    pub fn resume_summary(&mut self, replies: &Vec<String>) -> (pending: Option<String>)
        requires
            old(self).inv(),
        ensures
            final(self).inv(),
            final(self).recorder_view() == old(self).recorder_view(),
            final(self).stored_model() == old(self).stored_model(),
            match summarized_tree(
                old(self).cache_view().tree,
                old(self).cache_view().entries,
                views(replies@),
                old(self).uses_model(),
            ) {
                Ok(t) => pending is None && final(self).cache_view() == (CacheModel {
                    tree: t,
                    ..old(self).cache_view()
                }),
                Err(c) => pending matches Some(p) && p@ == c && final(self).cache_view()
                    == old(self).cache_view(),
            },
            in_step(old(self).cache_view(), old(self).recorder_view()) ==> in_step(
                final(self).cache_view(),
                final(self).recorder_view(),
            ) && forall|x: i64| #[trigger]
                selected_ids(final(self).cache_view().tree).contains(x) <==> selected_ids(
                    old(self).cache_view().tree,
                ).contains(x),
    {
        let pending = self.cache.summarize(&self.summarizer, replies);
        proof {
            if in_step(old(self).cache_view(), old(self).recorder_view()) {
                lemma_summary_keeps_selection(
                    old(self).cache_view().tree,
                    old(self).cache_view().entries,
                    views(replies@),
                    self.summarizer.uses_model(),
                    old(self).recorder_view().history_len,
                );
            }
        }
        pending
    }
}

} // verus!
