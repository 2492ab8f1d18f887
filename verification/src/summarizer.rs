//! Summaries of the context tree.
//!
//! A pass walks the nodes marked updated, children first, and gives each a
//! summary made of its children's and leaves' summaries in history order.
//! Where that text runs over `SUMMARY_THRESHOLD` words and a model is set,
//! the node's summary is the model's reply: the pass takes the replies in
//! the order the nodes ask for them, and stops, leaving the tree untouched,
//! at the first node whose reply is not given yet.
use std::collections::BTreeMap;
use vstd::prelude::*;

use crate::cache::{entry_views, CachedEntry, EntryModel};
use crate::text::{
    append_str, chars_of, copy_str, join, join_seq, string_from_chars, string_from_range, trim,
    trim_end, trim_end_seq, trim_seq, views, word_count, word_count_seq,
};
use crate::tree::{
    child_keys, entry_id_of, entry_keys, lemma_models_of, wf, ContextTree, ContextTreeNode, NodeModel,
};

verus! {

broadcast use vstd::std_specs::btree::group_btree_axioms;

/// The most characters a leaf's title keeps.
pub const MAX_TITLE_LENGTH: usize = 100;

/// The number of words above which a node's summary is asked of the model.
pub const SUMMARY_THRESHOLD: usize = 100;

// ---------------------------------------------------------------------------
// Text of summaries
// ---------------------------------------------------------------------------

/// `...`
pub open spec fn ellipsis() -> Seq<char> {
    seq!['.', '.', '.']
}

/// `text` cut to its first `limit` characters; a cut text loses its trailing
/// whitespace and ends with `...`.
pub open spec fn clip_seq(text: Seq<char>, limit: nat) -> Seq<char> {
    if text.len() <= limit {
        text
    } else {
        trim_end_seq(text.take(limit as int)) + ellipsis()
    }
}

/// `text` cut to its first `limit` characters, marked with `...` where cut.
pub fn clip_text(text: &str, limit: usize) -> (r: String)
    ensures
        r@ == clip_seq(text@, limit as nat),
{
    let v = chars_of(text);
    if v.len() <= limit {
        return string_from_chars(&v);
    }
    let clipped = string_from_range(&v, 0, limit);
    let mut r = trim_end(clipped.as_str());
    let dots = String::from_str("...");
    proof {
        reveal_strlit("...");
        assert(v@.subrange(0, limit as int) =~= v@.take(limit as int));
    }
    append_str(&mut r, dots.as_str());
    r
}

/// `:` and two newlines, between a title and its summary.
pub open spec fn title_sep() -> Seq<char> {
    seq![':', '\n', '\n']
}

/// A title and a summary as one text: both trimmed, joined with `:` and a
/// blank line; either alone where the other is empty.
pub open spec fn format_summary_seq(title: Seq<char>, summary: Seq<char>) -> Seq<char> {
    let s = trim_seq(summary);
    let t = trim_seq(title);
    if s.len() == 0 {
        t
    } else if t.len() == 0 {
        s
    } else {
        t + title_sep() + s
    }
}

/// A title and a summary as one text.
pub fn format_summary(title: &str, summary: &str) -> (r: String)
    ensures
        r@ == format_summary_seq(title@, summary@),
{
    let s = trim(summary);
    let mut t = trim(title);
    if s.as_str().unicode_len() == 0 {
        t
    } else if t.as_str().unicode_len() == 0 {
        s
    } else {
        let sep = String::from_str(":\n\n");
        proof {
            reveal_strlit(":\n\n");
        }
        append_str(&mut t, sep.as_str());
        append_str(&mut t, s.as_str());
        t
    }
}

/// The model's reply where it has text beyond whitespace, else the text
/// that was sent.
pub open spec fn resolved_reply(combined: Seq<char>, reply: Option<Seq<char>>) -> Seq<char> {
    match reply {
        Some(text) => if trim_seq(text).len() > 0 {
            text
        } else {
            combined
        },
        None => combined,
    }
}

/// The summary of a node after asking the model: its reply (`None` for a
/// failed request) where that has text beyond whitespace, else `combined`.
pub fn resolve_model_reply(combined: &str, reply: Option<String>) -> (r: String)
    ensures
        r@ == resolved_reply(combined@, match reply {
            Some(t) => Some(t@),
            None => None,
        }),
{
    match reply {
        Some(text) => {
            let t = trim(text.as_str());
            if t.as_str().unicode_len() > 0 {
                text
            } else {
                copy_str(combined)
            }
        },
        None => copy_str(combined),
    }
}

/// The separator between the parts of a combined summary: a line `===`
/// between blank lines.
pub open spec fn part_sep() -> Seq<char> {
    seq!['\n', '\n', '=', '=', '=', '\n', '\n']
}

/// The instructions sent with a summary request.
pub open spec fn summary_instructions() -> Seq<char> {
    seq![
        'S', 'u', 'm', 'm', 'a', 'r', 'i', 'z', 'e', ' ', 't', 'h', 'e', ' ', 'f', 'o', 'l', 'l',
        'o', 'w', 'i', 'n', 'g', ' ', 'c', 'o', 'n', 't', 'e', 'x', 't', ' ', 'f', 'o', 'r', ' ',
        'f', 'u', 't', 'u', 'r', 'e', ' ', 't', 'u', 'r', 'n', 's', '.',
    ]
}

// ---------------------------------------------------------------------------
// Requests to the model
// ---------------------------------------------------------------------------

/// A request to the model: instructions and the text to work on.
pub struct PromptRequest {
    pub system_prompt: String,
    pub user_prompt: String,
}

impl PromptRequest {
    /// A request with the given instructions and text.
    pub fn new(system_prompt: String, user_prompt: String) -> (r: Self)
        ensures
            r.system_prompt@ == system_prompt@,
            r.user_prompt@ == user_prompt@,
    {
        PromptRequest { system_prompt, user_prompt }
    }
}

/// The model's reply.
pub struct PromptResponse {
    pub text: String,
}

/// Why the model gave no reply.
#[derive(Debug)]
pub enum PromptModelError {
    Failed { message: String },
}

impl PromptModelError {
    /// The error's message: `prompt model failed: {message}`.
    pub fn describe(&self) -> (s: String)
        ensures
            s@ == seq!['p', 'r', 'o', 'm', 'p', 't', ' ', 'm', 'o', 'd', 'e', 'l', ' ', 'f', 'a', 'i', 'l', 'e', 'd', ':', ' ']
                + match self {
                PromptModelError::Failed { message } => message@,
            },
    {
        let mut s = String::from_str("prompt model failed: ");
        proof {
            reveal_strlit("prompt model failed: ");
        }
        match self {
            PromptModelError::Failed { message } => append_str(&mut s, message.as_str()),
        }
        s
    }
}

/// The request that asks the model to summarize `combined`.
pub fn summary_request(combined: &str) -> (r: PromptRequest)
    ensures
        r.system_prompt@ == summary_instructions(),
        r.user_prompt@ == combined@,
{
    let instructions = String::from_str("Summarize the following context for future turns.");
    proof {
        reveal_strlit("Summarize the following context for future turns.");
        assert(instructions@ =~= summary_instructions());
    }
    PromptRequest::new(instructions, copy_str(combined))
}


// ---------------------------------------------------------------------------
// The summarization pass
// ---------------------------------------------------------------------------

/// A leaf as its history index, title and summary, in plain values.
pub type ItemModel = (i64, Seq<char>, Seq<char>);

/// The number of leading items whose index is at most `k`: where an item
/// with index `k` goes after its equals.
pub open spec fn upper_pos(s: Seq<ItemModel>, k: i64) -> nat
    decreases s.len(),
{
    if s.len() > 0 && s[0].0 <= k {
        1 + upper_pos(s.drop_first(), k)
    } else {
        0
    }
}

/// `items` stably sorted by index (`sort_by_key`): each item goes after the
/// earlier ones whose index is at most its own.
pub open spec fn stable_sorted(items: Seq<ItemModel>) -> Seq<ItemModel>
    decreases items.len(),
{
    if items.len() == 0 {
        Seq::empty()
    } else {
        let s = stable_sorted(items.drop_last());
        s.insert(upper_pos(s, items.last().0) as int, items.last())
    }
}

/// Group children as parts of a summary: `min_entry_id`, title, summary.
pub open spec fn child_items(cs: Seq<NodeModel>) -> Seq<ItemModel>
    decreases cs.len(),
{
    if cs.len() == 0 {
        Seq::empty()
    } else {
        child_items(cs.drop_last()).push((cs.last().min_entry_id, cs.last().title, cs.last().summary))
    }
}

/// Leaves as parts of a summary: own index, title, summary.
pub open spec fn leaf_items(ls: Seq<NodeModel>) -> Seq<ItemModel>
    decreases ls.len(),
{
    if ls.len() == 0 {
        Seq::empty()
    } else {
        leaf_items(ls.drop_last()).push((entry_id_of(ls.last().id), ls.last().title, ls.last().summary))
    }
}

/// The parts of a group's summary: its children, then its leaves.
pub open spec fn node_items(cs: Seq<NodeModel>, leaves: Seq<NodeModel>) -> Seq<ItemModel> {
    child_items(cs) + leaf_items(leaves)
}

/// Each part formatted as title and summary.
pub open spec fn formatted(items: Seq<ItemModel>) -> Seq<Seq<char>>
    decreases items.len(),
{
    if items.len() == 0 {
        Seq::empty()
    } else {
        formatted(items.drop_last()).push(format_summary_seq(items.last().1, items.last().2))
    }
}

/// The parts sorted by index, each formatted, joined with `===` lines.
pub open spec fn combined_text(items: Seq<ItemModel>) -> Seq<char> {
    join_seq(formatted(stable_sorted(items)), part_sep())
}

/// A leaf with its title (clipped) and summary taken from its cached entry,
/// where there is one.
pub open spec fn summarized_leaf(e: NodeModel, es: Map<i64, EntryModel>) -> NodeModel {
    let k = entry_id_of(e.id);
    if es.dom().contains(k) {
        NodeModel {
            title: clip_seq(es[k].payload.title, MAX_TITLE_LENGTH as nat),
            summary: es[k].payload.body,
            updated: false,
            ..e
        }
    } else {
        e
    }
}

/// `summarized_leaf` of each leaf.
pub open spec fn summarized_leaves(leaves: Seq<NodeModel>, es: Map<i64, EntryModel>) -> Seq<NodeModel> {
    leaves.map_values(|e: NodeModel| summarized_leaf(e, es))
}

/// The summary pass over a group node, with the replies from `used` on at
/// hand: a node not marked updated stays as it is; otherwise its children
/// are summarized first, then its leaves, and its title becomes its id and
/// its summary the combined text of its parts (empty when that is empty, the
/// next reply where it runs over the threshold and a model is used). `Err`
/// holds the text of the first node whose reply is missing.
pub open spec fn summarized_node(
    n: NodeModel,
    es: Map<i64, EntryModel>,
    replies: Seq<Seq<char>>,
    used: nat,
    use_model: bool,
) -> Result<(NodeModel, nat), Seq<char>>
    decreases n,
{
    if !n.updated {
        Ok((n, used))
    } else {
        match summarized_children(n.children, es, replies, used, use_model) {
            Err(c) => Err(c),
            Ok((cs, u)) => {
                let ls = summarized_leaves(n.entry_nodes, es);
                let combined = combined_text(node_items(cs, ls));
                let base = NodeModel { children: cs, entry_nodes: ls, title: n.id, updated: false, ..n };
                if combined.len() == 0 {
                    Ok((NodeModel { summary: Seq::empty(), ..base }, u))
                } else if word_count_seq(combined) > SUMMARY_THRESHOLD && use_model {
                    if u < replies.len() {
                        Ok((NodeModel { summary: replies[u as int], ..base }, u + 1))
                    } else {
                        Err(combined)
                    }
                } else {
                    Ok((NodeModel { summary: combined, ..base }, u))
                }
            },
        }
    }
}

/// The summary pass over the nodes of `cs`, one after the other.
pub open spec fn summarized_children(
    cs: Seq<NodeModel>,
    es: Map<i64, EntryModel>,
    replies: Seq<Seq<char>>,
    used: nat,
    use_model: bool,
) -> Result<(Seq<NodeModel>, nat), Seq<char>>
    decreases cs,
{
    if cs.len() == 0 {
        Ok((Seq::empty(), used))
    } else {
        match summarized_children(cs.drop_last(), es, replies, used, use_model) {
            Err(c) => Err(c),
            Ok((done, u)) => match summarized_node(cs.last(), es, replies, u, use_model) {
                Err(c) => Err(c),
                Ok((n2, u2)) => Ok((done.push(n2), u2)),
            },
        }
    }
}

/// The summary pass over a tree: the root's children, then the root's own
/// leaves; the root itself keeps its title and summary.
pub open spec fn summarized_tree(
    root: NodeModel,
    es: Map<i64, EntryModel>,
    replies: Seq<Seq<char>>,
    use_model: bool,
) -> Result<NodeModel, Seq<char>> {
    match summarized_children(root.children, es, replies, 0, use_model) {
        Err(c) => Err(c),
        Ok((cs, u)) => Ok(
            NodeModel { children: cs, entry_nodes: summarized_leaves(root.entry_nodes, es), ..root },
        ),
    }
}

/// The plain values of items.
pub open spec fn item_views(v: Seq<(i64, String, String)>) -> Seq<ItemModel> {
    v.map_values(|it: (i64, String, String)| (it.0, it.1@, it.2@))
}

/// When a prefix of the children already asks for a reply, so do all of them.
proof fn lemma_children_pending(
    cs: Seq<NodeModel>,
    es: Map<i64, EntryModel>,
    rs: Seq<Seq<char>>,
    used: nat,
    use_model: bool,
    k: int,
    c: Seq<char>,
)
    requires
        0 <= k <= cs.len(),
        summarized_children(cs.take(k), es, rs, used, use_model) == Err::<(Seq<NodeModel>, nat), Seq<char>>(c),
    ensures
        summarized_children(cs, es, rs, used, use_model) == Err::<(Seq<NodeModel>, nat), Seq<char>>(c),
    decreases cs.len() - k,
{
    if k < cs.len() {
        assert(cs.take(k + 1).drop_last() =~= cs.take(k));
        lemma_children_pending(cs, es, rs, used, use_model, k + 1, c);
    } else {
        assert(cs.take(k) =~= cs);
    }
}

proof fn lemma_upper_pos_is(s: Seq<ItemModel>, k: i64, i: int)
    requires
        0 <= i <= s.len(),
        forall|j: int| 0 <= j < i ==> (#[trigger] s[j]).0 <= k,
        i < s.len() ==> s[i].0 > k,
    ensures
        upper_pos(s, k) == i,
    decreases i,
{
    if i > 0 {
        assert forall|j: int| 0 <= j < i - 1 implies (#[trigger] s.drop_first()[j]).0 <= k by {
            assert(s.drop_first()[j] == s[j + 1]);
        }
        if i - 1 < s.len() - 1 {
            assert(s.drop_first()[i - 1] == s[i]);
        }
        lemma_upper_pos_is(s.drop_first(), k, i - 1);
    }
}

proof fn lemma_upper_pos_props(s: Seq<ItemModel>, k: i64)
    ensures
        upper_pos(s, k) <= s.len(),
        forall|j: int| 0 <= j < upper_pos(s, k) ==> (#[trigger] s[j]).0 <= k,
        upper_pos(s, k) < s.len() ==> s[upper_pos(s, k) as int].0 > k,
    decreases s.len(),
{
    if s.len() > 0 && s[0].0 <= k {
        lemma_upper_pos_props(s.drop_first(), k);
        assert forall|j: int| 0 <= j < upper_pos(s, k) implies (#[trigger] s[j]).0 <= k by {
            if j > 0 {
                assert(s[j] == s.drop_first()[j - 1]);
            }
        }
        if upper_pos(s, k) < s.len() {
            assert(s[upper_pos(s, k) as int] == s.drop_first()[upper_pos(s.drop_first(), k) as int]);
        }
    }
}

/// Whether `p` lists each index of `items` once and `items` taken in the
/// order `p` gives are in non-decreasing order of their index, items with
/// equal indices in their order in `items`: `p` is a stable sort of
/// `items` by index.
pub open spec fn is_stable_sort_order(items: Seq<ItemModel>, p: Seq<int>) -> bool {
    &&& p.len() == items.len()
    &&& forall|i: int| 0 <= i < p.len() ==> 0 <= #[trigger] p[i] < items.len()
    &&& forall|i: int, j: int| 0 <= i < j < p.len() ==> p[i] != p[j]
    &&& forall|i: int, j: int| 0 <= i < j < p.len() ==> items[p[i]].0 <= items[p[j]].0
    &&& forall|i: int, j: int| 0 <= i < j < p.len() && items[p[i]].0 == items[p[j]].0 ==> p[i] < p[j]
}

/// `stable_sorted` is a stable sort by index: its result is `items`, each
/// once, in non-decreasing order of index, and items with equal indices
/// keep their order.
pub proof fn lemma_stable_sorted_sorts(items: Seq<ItemModel>) -> (p: Seq<int>)
    ensures
        is_stable_sort_order(items, p),
        stable_sorted(items) == p.map_values(|i: int| items[i]),
    decreases items.len(),
{
    if items.len() == 0 {
        let p = Seq::<int>::empty();
        assert(stable_sorted(items) =~= p.map_values(|i: int| items[i]));
        p
    } else {
        let n = items.len() as int;
        let d = items.drop_last();
        let x = items.last();
        let sd = stable_sorted(d);
        let pd = lemma_stable_sorted_sorts(d);
        let pos = upper_pos(sd, x.0) as int;
        lemma_upper_pos_props(sd, x.0);
        let p = pd.insert(pos, n - 1);
        let s = stable_sorted(items);
        assert(s == sd.insert(pos, x));
        assert forall|i: int| 0 <= i < pd.len() implies (#[trigger] sd[i]) == items[pd[i]] by {
            assert(sd[i] == pd.map_values(|q: int| d[q])[i]);
            assert(d[pd[i]] == items[pd[i]]);
        }
        assert(s =~= p.map_values(|i: int| items[i])) by {
            assert forall|i: int| 0 <= i < s.len() implies s[i] == p.map_values(|q: int| items[q])[i] by {
                if i < pos {
                    assert(s[i] == sd[i]);
                    assert(p[i] == pd[i]);
                } else if i == pos {
                    assert(p[i] == n - 1);
                } else {
                    assert(s[i] == sd[i - 1]);
                    assert(p[i] == pd[i - 1]);
                }
            }
        }
        assert forall|i: int| 0 <= i < p.len() implies 0 <= #[trigger] p[i] < items.len() by {
            if i < pos {
                assert(p[i] == pd[i]);
            } else if i > pos {
                assert(p[i] == pd[i - 1]);
            }
        }
        assert forall|i: int, j: int| 0 <= i < j < p.len() implies p[i] != p[j] && items[p[i]].0 <= items[p[j]].0 && (
        items[p[i]].0 == items[p[j]].0 ==> p[i] < p[j]) by {
            let a = if i < pos {
                i
            } else {
                i - 1
            };
            let b = if j < pos {
                j
            } else {
                j - 1
            };
            if i != pos {
                assert(p[i] == pd[a]);
                assert(items[p[i]] == sd[a]);
            }
            if j != pos {
                assert(p[j] == pd[b]);
                assert(items[p[j]] == sd[b]);
            }
            if i == pos {
                assert(p[i] == n - 1);
                assert(sd[pos].0 > x.0);
                assert(sd[pos].0 <= sd[b].0 || pos == b);
            } else if j == pos {
                assert(p[j] == n - 1);
                assert(sd[a].0 <= x.0);
            } else {
                assert(a < b);
            }
        }
        p
    }
}

/// The combined summary of a group lists its parts in non-decreasing order
/// of their index (a child group's `min_entry_id`, a leaf's own index),
/// each part once, parts with equal indices in their order among the
/// children and leaves: it is the parts taken in a stable sort order by
/// index, formatted and joined.
pub proof fn lemma_combined_text_in_index_order(items: Seq<ItemModel>) -> (p: Seq<int>)
    ensures
        is_stable_sort_order(items, p),
        combined_text(items) == join_seq(formatted(p.map_values(|i: int| items[i])), part_sep()),
{
    lemma_stable_sorted_sorts(items)
}

/// A group that the summary pass rewrites gets as its summary its parts
/// (its summarized children, by `min_entry_id`, and its leaves, by own
/// index) in non-decreasing order of index, each once, formatted and joined;
/// only a text that runs over the threshold, with a model in use, may be
/// replaced by the model's reply.
pub proof fn lemma_group_summary_in_index_order(
    n: NodeModel,
    es: Map<i64, EntryModel>,
    replies: Seq<Seq<char>>,
    used: nat,
    use_model: bool,
) -> (p: Seq<int>)
    requires
        n.updated,
        summarized_node(n, es, replies, used, use_model) is Ok,
    ensures
        ({
            let n2 = summarized_node(n, es, replies, used, use_model)->Ok_0.0;
            let parts = node_items(n2.children, n2.entry_nodes);
            let text = join_seq(formatted(p.map_values(|i: int| parts[i])), part_sep());
            &&& is_stable_sort_order(parts, p)
            &&& n2.summary == text || (word_count_seq(text) > SUMMARY_THRESHOLD && use_model)
        }),
{
    let (cs, u) = summarized_children(n.children, es, replies, used, use_model)->Ok_0;
    let ls = summarized_leaves(n.entry_nodes, es);
    let parts = node_items(cs, ls);
    let p = lemma_combined_text_in_index_order(parts);
    if combined_text(parts).len() == 0 {
        assert(join_seq(formatted(p.map_values(|i: int| parts[i])), part_sep()) == combined_text(parts));
    }
    p
}

/// `items` stably sorted by index.
fn stable_sort_items(items: Vec<(i64, String, String)>) -> (r: Vec<(i64, String, String)>)
    ensures
        item_views(r@) == stable_sorted(item_views(items@)),
{
    let ghost all = item_views(items@);
    let mut rest = items;
    let mut sorted: Vec<(i64, String, String)> = Vec::new();
    let n = rest.len();
    let mut i: usize = 0;
    while i < n
        invariant
            0 <= i <= n,
            n == all.len(),
            rest@.len() == n - i,
            item_views(rest@) == all.skip(i as int),
            item_views(sorted@) == stable_sorted(all.take(i as int)),
        decreases n - i,
    {
        let ghost before = rest@;
        let x = rest.remove(0);
        proof {
            assert(item_views(before)[0] == all[i as int]);
            assert(item_views(rest@) =~= all.skip(i + 1)) by {
                assert forall|j: int| 0 <= j < rest@.len() implies #[trigger] item_views(rest@)[j] == all.skip(i + 1)[j] by {
                    assert(rest@[j] == before[j + 1]);
                    assert(item_views(before)[j + 1] == all.skip(i as int)[j + 1]);
                }
            }
        }
        let ghost sv = item_views(sorted@);
        let mut p: usize = 0;
        while p < sorted.len() && sorted[p].0 <= x.0
            invariant
                0 <= p <= sorted@.len(),
                sv == item_views(sorted@),
                forall|j: int| 0 <= j < p ==> (#[trigger] sv[j]).0 <= x.0,
            decreases sorted.len() - p,
        {
            p += 1;
        }
        proof {
            lemma_upper_pos_is(sv, x.0, p as int);
        }
        let ghost xv = (x.0, x.1@, x.2@);
        sorted.insert(p, x);
        proof {
            assert(all.take(i + 1).drop_last() =~= all.take(i as int));
            assert(all.take(i + 1).last() == xv);
            assert(item_views(sorted@) =~= sv.insert(p as int, xv));
        }
        i += 1;
    }
    assert(all.take(n as int) =~= all);
    sorted
}

/// Gives the leaf its title and summary from its cached entry, where there is one.
fn summarize_leaf(e: &mut ContextTreeNode, entries: &BTreeMap<i64, CachedEntry>)
    ensures
        final(e)@ == summarized_leaf(old(e)@, entry_views(entries@)),
{
    let k = e.entry_id();
    match entries.get(&k) {
        Some(entry) => {
            e.title = clip_text(entry.payload.title.as_str(), MAX_TITLE_LENGTH);
            e.summary = entry.payload.body.clone();
            e.updated = false;
            proof {
                lemma_models_of(e);
                lemma_models_of(old(e));
                assert(e@ =~= summarized_leaf(old(e)@, entry_views(entries@)));
            }
        },
        None => {},
    }
}

/// The summary pass over the children of `node` from the first on, taking
/// the replies from `*used` on.
fn summarize_children_of(
    node: &mut ContextTreeNode,
    entries: &BTreeMap<i64, CachedEntry>,
    replies: &Vec<String>,
    used: &mut usize,
    use_model: bool,
) -> (pending: Option<String>)
    requires
        *old(used) <= replies@.len(),
    ensures
        match summarized_children(old(node)@.children, entry_views(entries@), views(replies@), *old(used) as nat, use_model) {
            Ok((cs, u)) => pending is None && final(node)@ == (NodeModel { children: cs, ..old(node)@ }) && *final(used) == u,
            Err(c) => pending matches Some(p) && p@ == c,
        },
        *final(used) <= replies@.len(),
    decreases *old(node), 0nat,
{
    let ghost es = entry_views(entries@);
    let ghost rs = views(replies@);
    let ghost old_m = old(node)@;
    proof {
        lemma_models_of(node);
        assert(old_m.children.take(0) =~= Seq::<NodeModel>::empty());
    }
    let nc = node.children.len();
    let mut k: usize = 0;
    while k < nc
        invariant
            0 <= k <= nc,
            nc == node.children@.len(),
            nc == old_m.children.len(),
            old_m == old(node)@,
            es == entry_views(entries@),
            rs == views(replies@),
            *used <= replies@.len(),
            forall|j: int| k <= j < nc ==> #[trigger] node.children@[j] == old(node).children@[j],
            summarized_children(old_m.children.take(k as int), es, rs, *old(used) as nat, use_model)
                matches Ok((done, u)) && u == *used && done.len() == k
                && forall|j: int| 0 <= j < k ==> #[trigger] node.children@[j]@ == done[j],
            node.entry_nodes == old(node).entry_nodes,
            node.id == old(node).id,
            node.title == old(node).title,
            node.labels == old(node).labels,
            node.summary == old(node).summary,
            node.selected == old(node).selected,
            node.collapsed == old(node).collapsed,
            node.min_entry_id == old(node).min_entry_id,
            node.updated == old(node).updated,
        decreases nc - k,
    {
        proof {
            assert(decreases_to!(old(node).children@ => old(node).children@[k as int]));
            lemma_models_of(old(node));
            assert(old_m.children[k as int] == old(node).children@[k as int]@);
            assert(old_m.children.take(k + 1).drop_last() =~= old_m.children.take(k as int));
            assert(old_m.children.take(k + 1).last() == old_m.children[k as int]);
        }
        let r = summarize_node(&mut node.children[k], entries, replies, used, use_model);
        match r {
            Some(c) => {
                proof {
                    lemma_children_pending(old_m.children, es, rs, *old(used) as nat, use_model, k + 1, c@);
                }
                return Some(c);
            },
            None => {},
        }
        k += 1;
    }
    proof {
        assert(old_m.children.take(nc as int) =~= old_m.children);
        lemma_models_of(node);
        let done = summarized_children(old_m.children, es, rs, *old(used) as nat, use_model)->Ok_0.0;
        assert(node@.children =~= done);
        assert(node@ =~= (NodeModel { children: done, ..old_m }));
    }
    None
}

/// Gives every leaf of `node` its title and summary from its cached entry.
fn summarize_leaves_of(node: &mut ContextTreeNode, entries: &BTreeMap<i64, CachedEntry>)
    ensures
        final(node)@ == (NodeModel {
            entry_nodes: summarized_leaves(old(node)@.entry_nodes, entry_views(entries@)),
            ..old(node)@
        }),
{
    let ghost es = entry_views(entries@);
    let ghost old_m = old(node)@;
    let ne = node.entry_nodes.len();
    let mut i: usize = 0;
    while i < ne
        invariant
            0 <= i <= ne,
            ne == node.entry_nodes@.len(),
            ne == old(node).entry_nodes@.len(),
            old_m == old(node)@,
            es == entry_views(entries@),
            forall|j: int| 0 <= j < i ==> #[trigger] node.entry_nodes@[j]@ == summarized_leaf(old_m.entry_nodes[j], es),
            forall|j: int| i <= j < ne ==> #[trigger] node.entry_nodes@[j] == old(node).entry_nodes@[j],
            node.children == old(node).children,
            node.id == old(node).id,
            node.title == old(node).title,
            node.labels == old(node).labels,
            node.summary == old(node).summary,
            node.selected == old(node).selected,
            node.collapsed == old(node).collapsed,
            node.min_entry_id == old(node).min_entry_id,
            node.updated == old(node).updated,
        decreases ne - i,
    {
        proof {
            lemma_models_of(old(node));
            assert(old_m.entry_nodes[i as int] == old(node).entry_nodes@[i as int]@);
        }
        summarize_leaf(&mut node.entry_nodes[i], entries);
        i += 1;
    }
    proof {
        lemma_models_of(node);
        lemma_models_of(old(node));
        assert(node@.entry_nodes =~= summarized_leaves(old_m.entry_nodes, es));
        assert(node@ =~= (NodeModel { entry_nodes: summarized_leaves(old_m.entry_nodes, es), ..old_m }));
    }
}

/// The parts of the summary of `node`: its children, then its leaves.
fn gather_items(node: &ContextTreeNode) -> (items: Vec<(i64, String, String)>)
    ensures
        item_views(items@) == node_items(node@.children, node@.entry_nodes),
{
    proof {
        lemma_models_of(node);
    }
    let mut items: Vec<(i64, String, String)> = Vec::new();
    let nc = node.children.len();
    let mut a: usize = 0;
    while a < nc
        invariant
            0 <= a <= nc,
            nc == node.children@.len(),
            node@.children == crate::tree::models(node.children@),
            item_views(items@) == child_items(node@.children.take(a as int)),
        decreases nc - a,
    {
        let c = &node.children[a];
        let ghost before = items@;
        items.push((c.min_entry_id, c.title.clone(), c.summary.clone()));
        proof {
            assert(node@.children[a as int] == c@);
            assert(node@.children.take(a + 1).drop_last() =~= node@.children.take(a as int));
            assert(item_views(items@) =~= item_views(before).push((c.min_entry_id, c.title@, c.summary@)));
        }
        a += 1;
    }
    assert(node@.children.take(nc as int) =~= node@.children);
    let ghost mid = items@;
    let ne = node.entry_nodes.len();
    let mut b: usize = 0;
    while b < ne
        invariant
            0 <= b <= ne,
            ne == node.entry_nodes@.len(),
            node@.entry_nodes == crate::tree::models(node.entry_nodes@),
            item_views(mid) == child_items(node@.children),
            item_views(items@) == item_views(mid) + leaf_items(node@.entry_nodes.take(b as int)),
        decreases ne - b,
    {
        let e = &node.entry_nodes[b];
        let id = e.entry_id();
        let ghost before = items@;
        items.push((id, e.title.clone(), e.summary.clone()));
        proof {
            assert(node@.entry_nodes[b as int] == e@);
            assert(node@.entry_nodes.take(b + 1).drop_last() =~= node@.entry_nodes.take(b as int));
            assert(item_views(items@) =~= item_views(before).push((id, e.title@, e.summary@)));
        }
        b += 1;
    }
    assert(node@.entry_nodes.take(ne as int) =~= node@.entry_nodes);
    items
}

/// The combined text of the parts: sorted by index, formatted, joined with `===` lines.
fn combine_items(items: Vec<(i64, String, String)>) -> (combined: String)
    ensures
        combined@ == combined_text(item_views(items@)),
{
    let sorted = stable_sort_items(items);
    let mut parts: Vec<String> = Vec::new();
    let mut q: usize = 0;
    while q < sorted.len()
        invariant
            0 <= q <= sorted@.len(),
            views(parts@) == formatted(item_views(sorted@).take(q as int)),
        decreases sorted.len() - q,
    {
        let f = format_summary(sorted[q].1.as_str(), sorted[q].2.as_str());
        let ghost before = parts@;
        parts.push(f);
        proof {
            assert(item_views(sorted@).take(q + 1).drop_last() =~= item_views(sorted@).take(q as int));
            assert(item_views(sorted@)[q as int] == (sorted@[q as int].0, sorted@[q as int].1@, sorted@[q as int].2@));
            assert(views(parts@) =~= views(before).push(f@));
        }
        q += 1;
    }
    assert(item_views(sorted@).take(sorted@.len() as int) =~= item_views(sorted@));
    let sep = String::from_str("\n\n===\n\n");
    proof {
        reveal_strlit("\n\n===\n\n");
        assert(sep@ =~= part_sep());
    }
    join(&parts, sep.as_str())
}

/// The summary pass over `node`, taking the replies from `*used` on.
fn summarize_node(
    node: &mut ContextTreeNode,
    entries: &BTreeMap<i64, CachedEntry>,
    replies: &Vec<String>,
    used: &mut usize,
    use_model: bool,
) -> (pending: Option<String>)
    requires
        *old(used) <= replies@.len(),
    ensures
        match summarized_node(old(node)@, entry_views(entries@), views(replies@), *old(used) as nat, use_model) {
            Ok((n, u)) => pending is None && final(node)@ == n && *final(used) == u,
            Err(c) => pending matches Some(p) && p@ == c,
        },
        *final(used) <= replies@.len(),
    decreases *old(node), 1nat,
{
    let ghost es = entry_views(entries@);
    let ghost rs = views(replies@);
    let ghost old_m = old(node)@;
    if !node.updated {
        return None;
    }
    let p = summarize_children_of(node, entries, replies, used, use_model);
    if p.is_some() {
        return p;
    }
    summarize_leaves_of(node, entries);
    let items = gather_items(node);
    let combined = combine_items(items);
    let ghost u = *used;
    node.title = node.id.clone();
    node.updated = false;
    if combined.as_str().unicode_len() == 0 {
        node.summary = String::new();
    } else if word_count(combined.as_str()) > SUMMARY_THRESHOLD && use_model {
        if *used < replies.len() {
            node.summary = replies[*used].clone();
            *used = *used + 1;
        } else {
            return Some(combined);
        }
    } else {
        node.summary = combined;
    }
    proof {
        lemma_models_of(node);
        assert(node@ =~= summarized_node(old_m, es, rs, *old(used) as nat, use_model)->Ok_0.0);
    }
    None
}

/// A summarizer, with or without a model to shorten long summaries.
#[derive(Clone, Debug)]
pub struct ContextTreeSummarizer<M> {
    model: Option<M>,
}

impl<M> ContextTreeSummarizer<M> {
    /// A summarizer with the given model, if any.
    pub fn new(model: Option<M>) -> (s: Self)
        ensures
            s.stored_model() == model,
    {
        ContextTreeSummarizer { model }
    }

    /// The model that the summarizer holds, if any.
    pub closed spec fn stored_model(&self) -> Option<M> {
        self.model
    }

    /// Whether long summaries are asked of a model.
    pub open spec fn uses_model(&self) -> bool {
        self.stored_model() is Some
    }

    /// The model, if any.
    pub fn model(&self) -> (m: Option<&M>)
        ensures
            match (m, self.stored_model()) {
                (Some(a), Some(b)) => *a == b,
                (None, None) => true,
                _ => false,
            },
    {
        match &self.model {
            Some(m) => Some(m),
            None => None,
        }
    }

    /// One summary pass over `node` and the nodes under it, with the replies
    /// at hand: `None` with the node summarized, or the text of the first
    /// node whose reply is missing, with the node as it was.
    pub fn summarize_node(
        &self,
        node: &mut ContextTreeNode,
        entries: &BTreeMap<i64, CachedEntry>,
        replies: &Vec<String>,
    ) -> (pending: Option<String>)
        ensures
            match summarized_node(old(node)@, entry_views(entries@), views(replies@), 0, self.uses_model()) {
                Ok((n, u)) => pending is None && final(node)@ == n,
                Err(c) => pending matches Some(p) && p@ == c && final(node)@ == old(node)@,
            },
    {
        let use_model = self.model.is_some();
        let mut copy = crate::tree::copy_node(node);
        let mut used: usize = 0;
        let pending = summarize_node(&mut copy, entries, replies, &mut used, use_model);
        if pending.is_none() {
            *node = copy;
        }
        pending
    }

    /// One summary pass over the tree with the replies at hand: `None` with
    /// the tree summarized, or the text of the first node whose reply is
    /// missing, with the tree as it was.
    pub fn summarize_tree(
        &self,
        tree: &mut ContextTree,
        entries: &BTreeMap<i64, CachedEntry>,
        replies: &Vec<String>,
    ) -> (pending: Option<String>)
        ensures
            match summarized_tree(old(tree)@, entry_views(entries@), views(replies@), self.uses_model()) {
                Ok(t) => pending is None && final(tree)@ == t,
                Err(c) => pending matches Some(p) && p@ == c && final(tree)@ == old(tree)@,
            },
    {
        let use_model = self.model.is_some();
        let mut root = crate::tree::copy_node(&tree.root);
        let mut used: usize = 0;
        let pending = summarize_root(&mut root, entries, replies, &mut used, use_model);
        if pending.is_none() {
            tree.root = root;
        }
        pending
    }
}

/// The summary pass over the root: its children, then its own leaves.
fn summarize_root(
    root: &mut ContextTreeNode,
    entries: &BTreeMap<i64, CachedEntry>,
    replies: &Vec<String>,
    used: &mut usize,
    use_model: bool,
) -> (pending: Option<String>)
    requires
        *old(used) == 0,
    ensures
        match summarized_tree(old(root)@, entry_views(entries@), views(replies@), use_model) {
            Ok(t) => pending is None && final(root)@ == t,
            Err(c) => pending matches Some(p) && p@ == c,
        },
{
    let p = summarize_children_of(root, entries, replies, used, use_model);
    if p.is_some() {
        return p;
    }
    summarize_leaves_of(root, entries);
    None
}


/// A summary pass keeps the labels, ids and well-formedness of a node.
pub proof fn lemma_summarized_node_wf(
    n: NodeModel,
    es: Map<i64, EntryModel>,
    rs: Seq<Seq<char>>,
    used: nat,
    use_model: bool,
)
    requires
        wf(n),
    ensures
        summarized_node(n, es, rs, used, use_model) matches Ok((n2, u)) ==> wf(n2) && n2.labels == n.labels
            && n2.id == n.id,
    decreases n,
{
    if n.updated {
        lemma_summarized_children_wf(n.children, es, rs, used, use_model);
        if let Ok((cs, u)) = summarized_children(n.children, es, rs, used, use_model) {
            let ls = summarized_leaves(n.entry_nodes, es);
            assert(entry_keys(ls) =~= entry_keys(n.entry_nodes));
            assert(child_keys(cs) =~= child_keys(n.children));
        }
    }
}

/// A summary pass keeps the labels, ids and well-formedness of each node.
pub proof fn lemma_summarized_children_wf(
    cs: Seq<NodeModel>,
    es: Map<i64, EntryModel>,
    rs: Seq<Seq<char>>,
    used: nat,
    use_model: bool,
)
    requires
        forall|i: int| 0 <= i < cs.len() ==> wf(#[trigger] cs[i]),
    ensures
        summarized_children(cs, es, rs, used, use_model) matches Ok((cs2, u)) ==> cs2.len() == cs.len()
            && forall|i: int| 0 <= i < cs.len() ==> wf(#[trigger] cs2[i]) && cs2[i].labels == cs[i].labels
            && cs2[i].id == cs[i].id,
    decreases cs,
{
    if cs.len() > 0 {
        lemma_summarized_children_wf(cs.drop_last(), es, rs, used, use_model);
        if let Ok((done, u)) = summarized_children(cs.drop_last(), es, rs, used, use_model) {
            lemma_summarized_node_wf(cs.last(), es, rs, u, use_model);
            if let Ok((n2, u2)) = summarized_node(cs.last(), es, rs, u, use_model) {
                let cs2 = done.push(n2);
                assert forall|i: int| 0 <= i < cs.len() implies wf(#[trigger] cs2[i]) && cs2[i].labels == cs[i].labels
                    && cs2[i].id == cs[i].id by {
                    if i < cs.len() - 1 {
                        assert(cs.drop_last()[i] == cs[i]);
                    }
                }
            }
        }
    }
}

/// A summary pass keeps the tree well formed.
pub proof fn lemma_summarized_tree_wf(root: NodeModel, es: Map<i64, EntryModel>, rs: Seq<Seq<char>>, use_model: bool)
    requires
        wf(root),
    ensures
        summarized_tree(root, es, rs, use_model) matches Ok(t) ==> wf(t),
{
    lemma_summarized_children_wf(root.children, es, rs, 0, use_model);
    if let Ok((cs, u)) = summarized_children(root.children, es, rs, 0, use_model) {
        let ls = summarized_leaves(root.entry_nodes, es);
        assert(entry_keys(ls) =~= entry_keys(root.entry_nodes));
        assert(child_keys(cs) =~= child_keys(root.children));
    }
}

} // verus!
