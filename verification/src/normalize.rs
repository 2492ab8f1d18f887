//! The two invariants of the history: every call (function, custom tool,
//! local shell) has an output, and every output has its call.
use vstd::prelude::*;

use crate::items::{item_views, FunctionCallOutputPayload, ItemView, OutputView, ResponseItem};
use crate::text::{copy_str, str_eq};

verus! {

// ---------------------------------------------------------------------------
// Calls and outputs
// ---------------------------------------------------------------------------

/// Whether `v` is a function call output for `id`.
pub open spec fn is_function_output_for(v: ItemView, id: Seq<char>) -> bool {
    v matches ItemView::FunctionCallOutput { call_id, .. } && call_id == id
}

/// Whether `v` is a custom tool call output for `id`.
pub open spec fn is_custom_output_for(v: ItemView, id: Seq<char>) -> bool {
    v matches ItemView::CustomToolCallOutput { call_id, .. } && call_id == id
}

/// Whether `v` is a function call for `id`.
pub open spec fn is_function_call_for(v: ItemView, id: Seq<char>) -> bool {
    v matches ItemView::FunctionCall { call_id, .. } && call_id == id
}

/// Whether `v` is a custom tool call for `id`.
pub open spec fn is_custom_call_for(v: ItemView, id: Seq<char>) -> bool {
    v matches ItemView::CustomToolCall { call_id, .. } && call_id == id
}

/// Whether `v` is a local shell call for `id`.
pub open spec fn is_shell_call_for(v: ItemView, id: Seq<char>) -> bool {
    v matches ItemView::LocalShellCall { call_id: Some(c), .. } && c == id
}

/// Whether some item of `all` is a function call output for `id`.
pub open spec fn has_function_output(all: Seq<ItemView>, id: Seq<char>) -> bool {
    exists|j: int| 0 <= j < all.len() && is_function_output_for(#[trigger] all[j], id)
}

/// Whether some item of `all` is a custom tool call output for `id`.
pub open spec fn has_custom_output(all: Seq<ItemView>, id: Seq<char>) -> bool {
    exists|j: int| 0 <= j < all.len() && is_custom_output_for(#[trigger] all[j], id)
}

/// Whether `v` is a call whose output is nowhere in `all`. A local shell call
/// is answered by a function call output; one without an id needs none.
pub open spec fn missing_output(all: Seq<ItemView>, v: ItemView) -> bool {
    match v {
        ItemView::FunctionCall { call_id, .. } => !has_function_output(all, call_id),
        ItemView::CustomToolCall { call_id, .. } => !has_custom_output(all, call_id),
        ItemView::LocalShellCall { call_id: Some(id), .. } => !has_function_output(all, id),
        _ => false,
    }
}

/// The output that stands in for a missing one: `aborted`.
pub open spec fn synthetic_output(v: ItemView) -> ItemView {
    match v {
        ItemView::CustomToolCall { call_id, .. } => ItemView::CustomToolCallOutput {
            call_id,
            output: "aborted"@,
        },
        ItemView::LocalShellCall { call_id: Some(id), .. } => ItemView::FunctionCallOutput {
            call_id: id,
            output: OutputView { content: "aborted"@, content_items: None, success: None },
        },
        ItemView::FunctionCall { call_id, .. } => ItemView::FunctionCallOutput {
            call_id,
            output: OutputView { content: "aborted"@, content_items: None, success: None },
        },
        _ => v,
    }
}

/// The first `n` items of `all`, each call whose output is missing followed
/// by its synthetic output.
pub open spec fn with_outputs(all: Seq<ItemView>, n: nat) -> Seq<ItemView>
    decreases n,
{
    if n == 0 {
        Seq::empty()
    } else {
        with_outputs(all, (n - 1) as nat) + seq![all[n - 1]] + if missing_output(all, all[n - 1]) {
            seq![synthetic_output(all[n - 1])]
        } else {
            Seq::empty()
        }
    }
}

/// The inserts that add the synthetic outputs of the first `n` items, from
/// the last call back to the first: each right after its call, so that no
/// insert moves a position that a later one names.
pub open spec fn output_inserts(all: Seq<ItemView>, n: nat) -> Seq<(nat, ItemView)>
    decreases n,
{
    if n == 0 {
        Seq::empty()
    } else {
        (if missing_output(all, all[n - 1]) {
            seq![(n, synthetic_output(all[n - 1]))]
        } else {
            Seq::empty()
        }) + output_inserts(all, (n - 1) as nat)
    }
}

/// The views of reported inserts.
pub open spec fn insert_views(v: Seq<(usize, ResponseItem)>) -> Seq<(nat, ItemView)> {
    v.map_values(|e: (usize, ResponseItem)| (e.0 as nat, e.1@))
}

fn has_function_output_in(items: &Vec<ResponseItem>, id: &String) -> (r: bool)
    ensures
        r == has_function_output(item_views(items@), id@),
{
    let ghost all = item_views(items@);
    let mut j: usize = 0;
    while j < items.len()
        invariant
            0 <= j <= items@.len(),
            all == item_views(items@),
            forall|k: int| 0 <= k < j ==> !is_function_output_for(#[trigger] all[k], id@),
        decreases items.len() - j,
    {
        if let ResponseItem::FunctionCallOutput { call_id, .. } = &items[j] {
            if str_eq(call_id.as_str(), id.as_str()) {
                assert(is_function_output_for(all[j as int], id@));
                return true;
            }
        }
        j += 1;
    }
    false
}

fn has_custom_output_in(items: &Vec<ResponseItem>, id: &String) -> (r: bool)
    ensures
        r == has_custom_output(item_views(items@), id@),
{
    let ghost all = item_views(items@);
    let mut j: usize = 0;
    while j < items.len()
        invariant
            0 <= j <= items@.len(),
            all == item_views(items@),
            forall|k: int| 0 <= k < j ==> !is_custom_output_for(#[trigger] all[k], id@),
        decreases items.len() - j,
    {
        if let ResponseItem::CustomToolCallOutput { call_id, .. } = &items[j] {
            if str_eq(call_id.as_str(), id.as_str()) {
                assert(is_custom_output_for(all[j as int], id@));
                return true;
            }
        }
        j += 1;
    }
    false
}

/// Whether the item at `i` is a call whose output is missing.
fn output_is_missing(items: &Vec<ResponseItem>, i: usize) -> (r: bool)
    requires
        i < items.len(),
    ensures
        r == missing_output(item_views(items@), items@[i as int]@),
{
    match &items[i] {
        ResponseItem::FunctionCall { call_id, .. } => !has_function_output_in(items, call_id),
        ResponseItem::CustomToolCall { call_id, .. } => !has_custom_output_in(items, call_id),
        ResponseItem::LocalShellCall { call_id, .. } => match call_id {
            Some(id) => !has_function_output_in(items, id),
            None => false,
        },
        _ => false,
    }
}

/// The synthetic output for the call `call`.
fn make_synthetic_output(call: &ResponseItem) -> (r: ResponseItem)
    requires
        call@ is FunctionCall || call@ is CustomToolCall || call@ matches ItemView::LocalShellCall {
            call_id: Some(_),
            ..
        },
    ensures
        r@ == synthetic_output(call@),
{
    match call {
        ResponseItem::CustomToolCall { call_id, .. } => ResponseItem::CustomToolCallOutput {
            call_id: call_id.clone(),
            output: copy_str("aborted"),
        },
        ResponseItem::LocalShellCall { call_id, .. } => {
            let id = match call_id {
                Some(id) => id.clone(),
                None => String::new(),
            };
            ResponseItem::FunctionCallOutput {
                call_id: id,
                output: FunctionCallOutputPayload {
                    content: copy_str("aborted"),
                    content_items: None,
                    success: None,
                },
            }
        },
        ResponseItem::FunctionCall { call_id, .. } => ResponseItem::FunctionCallOutput {
            call_id: call_id.clone(),
            output: FunctionCallOutputPayload {
                content: copy_str("aborted"),
                content_items: None,
                success: None,
            },
        },
        _ => ResponseItem::Other,
    }
}

/// Adds an `aborted` output right after every call whose output is missing,
/// and reports the inserts in the order in which they can be replayed: from
/// the last call back to the first, each at its call's position plus one.
pub fn ensure_call_outputs_present(items: &mut Vec<ResponseItem>) -> (inserts: Vec<(usize, ResponseItem)>)
    requires
        old(items)@.len() * 2 <= usize::MAX,
    ensures
        item_views(final(items)@) == with_outputs(item_views(old(items)@), old(items)@.len()),
        insert_views(inserts@) == output_inserts(item_views(old(items)@), old(items)@.len()),
{
    let ghost all = item_views(items@);
    let n = items.len();
    let mut missing: Vec<bool> = Vec::new();
    let mut i: usize = 0;
    while i < n
        invariant
            0 <= i <= n,
            n == items@.len(),
            all == item_views(items@),
            missing@.len() == i,
            forall|k: int| 0 <= k < i ==> #[trigger] missing@[k] == missing_output(all, all[k]),
        decreases n - i,
    {
        let m = output_is_missing(items, i);
        missing.push(m);
        i += 1;
    }
    let mut rest: Vec<ResponseItem> = Vec::new();
    std::mem::swap(&mut rest, items);
    assert(item_views(rest@) =~= all.skip(0));
    let mut out: Vec<ResponseItem> = Vec::new();
    let mut inserts: Vec<(usize, ResponseItem)> = Vec::new();
    let mut j: usize = 0;
    while j < n
        invariant
            0 <= j <= n,
            n == all.len(),
            missing@.len() == n,
            forall|k: int| 0 <= k < n ==> #[trigger] missing@[k] == missing_output(all, all[k]),
            rest@.len() == n - j,
            item_views(rest@) == all.skip(j as int),
            item_views(out@) == with_outputs(all, j as nat),
            insert_views(inserts@) == output_inserts(all, j as nat),
            n * 2 <= usize::MAX,
        decreases n - j,
    {
        let ghost before = rest@;
        let ghost out_before = out@;
        let x = rest.remove(0);
        proof {
            assert(item_views(before)[0] == all[j as int]);
            assert(x@ == all[j as int]);
            assert(item_views(rest@) =~= all.skip(j + 1)) by {
                assert forall|k: int| 0 <= k < rest@.len() implies #[trigger] item_views(rest@)[k] == all.skip(j + 1)[k] by {
                    assert(rest@[k] == before[k + 1]);
                    assert(item_views(before)[k + 1] == all.skip(j as int)[k + 1]);
                }
            }
        }
        let needs = missing[j];
        let ghost ins_before = inserts@;
        if needs {
            let s1 = make_synthetic_output(&x);
            let s2 = make_synthetic_output(&x);
            out.push(x);
            out.push(s1);
            inserts.insert(0, (j + 1, s2));
            proof {
                assert(item_views(out@) =~= item_views(out_before) + seq![all[j as int]] + seq![
                    synthetic_output(all[j as int]),
                ]);
                assert(insert_views(inserts@) =~= seq![((j + 1) as nat, synthetic_output(all[j as int]))]
                    + insert_views(ins_before));
            }
        } else {
            out.push(x);
            proof {
                assert(item_views(out@) =~= item_views(out_before) + seq![all[j as int]]);
                assert(output_inserts(all, (j + 1) as nat) =~= output_inserts(all, j as nat));
            }
        }
        j += 1;
    }
    *items = out;
    inserts
}

// ---------------------------------------------------------------------------
// Orphan outputs
// ---------------------------------------------------------------------------

/// Whether some item of `all` is a function call or a local shell call for `id`.
pub open spec fn has_call_for(all: Seq<ItemView>, id: Seq<char>) -> bool {
    exists|j: int|
        0 <= j < all.len() && (is_function_call_for(#[trigger] all[j], id) || is_shell_call_for(all[j], id))
}

/// Whether some item of `all` is a custom tool call for `id`.
pub open spec fn has_custom_call(all: Seq<ItemView>, id: Seq<char>) -> bool {
    exists|j: int| 0 <= j < all.len() && is_custom_call_for(#[trigger] all[j], id)
}

/// Whether `v` is an output whose call is nowhere in `all`.
pub open spec fn orphan(all: Seq<ItemView>, v: ItemView) -> bool {
    match v {
        ItemView::FunctionCallOutput { call_id, .. } => !has_call_for(all, call_id),
        ItemView::CustomToolCallOutput { call_id, .. } => !has_custom_call(all, call_id),
        _ => false,
    }
}

/// The first `n` items of `all` that are not orphan outputs.
pub open spec fn without_orphans(all: Seq<ItemView>, n: nat) -> Seq<ItemView>
    decreases n,
{
    if n == 0 {
        Seq::empty()
    } else {
        without_orphans(all, (n - 1) as nat) + if orphan(all, all[n - 1]) {
            Seq::empty()
        } else {
            seq![all[n - 1]]
        }
    }
}

/// The removes of the orphans among the first `n` items, in order, each at
/// the position that the orphan has once the earlier ones are gone.
pub open spec fn orphan_removals(all: Seq<ItemView>, n: nat) -> Seq<nat>
    decreases n,
{
    if n == 0 {
        Seq::empty()
    } else {
        orphan_removals(all, (n - 1) as nat) + if orphan(all, all[n - 1]) {
            seq![without_orphans(all, (n - 1) as nat).len()]
        } else {
            Seq::empty()
        }
    }
}

fn has_call_in(items: &Vec<ResponseItem>, id: &String) -> (r: bool)
    ensures
        r == has_call_for(item_views(items@), id@),
{
    let ghost all = item_views(items@);
    let mut j: usize = 0;
    while j < items.len()
        invariant
            0 <= j <= items@.len(),
            all == item_views(items@),
            forall|k: int|
                0 <= k < j ==> !is_function_call_for(#[trigger] all[k], id@) && !is_shell_call_for(all[k], id@),
        decreases items.len() - j,
    {
        match &items[j] {
            ResponseItem::FunctionCall { call_id, .. } => {
                if str_eq(call_id.as_str(), id.as_str()) {
                    assert(is_function_call_for(all[j as int], id@));
                    return true;
                }
            },
            ResponseItem::LocalShellCall { call_id: Some(call_id), .. } => {
                if str_eq(call_id.as_str(), id.as_str()) {
                    assert(is_shell_call_for(all[j as int], id@));
                    return true;
                }
            },
            _ => {},
        }
        j += 1;
    }
    false
}

fn has_custom_call_in(items: &Vec<ResponseItem>, id: &String) -> (r: bool)
    ensures
        r == has_custom_call(item_views(items@), id@),
{
    let ghost all = item_views(items@);
    let mut j: usize = 0;
    while j < items.len()
        invariant
            0 <= j <= items@.len(),
            all == item_views(items@),
            forall|k: int| 0 <= k < j ==> !is_custom_call_for(#[trigger] all[k], id@),
        decreases items.len() - j,
    {
        if let ResponseItem::CustomToolCall { call_id, .. } = &items[j] {
            if str_eq(call_id.as_str(), id.as_str()) {
                assert(is_custom_call_for(all[j as int], id@));
                return true;
            }
        }
        j += 1;
    }
    false
}

/// Whether the item at `i` is an output whose call is missing.
fn is_orphan(items: &Vec<ResponseItem>, i: usize) -> (r: bool)
    requires
        i < items.len(),
    ensures
        r == orphan(item_views(items@), items@[i as int]@),
{
    match &items[i] {
        ResponseItem::FunctionCallOutput { call_id, .. } => !has_call_in(items, call_id),
        ResponseItem::CustomToolCallOutput { call_id, .. } => !has_custom_call_in(items, call_id),
        _ => false,
    }
}

/// Drops every output whose call is missing, and reports the removes in
/// order, each at the position the output has once the earlier ones are gone.
pub fn remove_orphan_outputs(items: &mut Vec<ResponseItem>) -> (removed: Vec<usize>)
    ensures
        item_views(final(items)@) == without_orphans(item_views(old(items)@), old(items)@.len()),
        removed@.map_values(|i: usize| i as nat) == orphan_removals(
            item_views(old(items)@),
            old(items)@.len(),
        ),
{
    let ghost all = item_views(items@);
    let n = items.len();
    let mut flags: Vec<bool> = Vec::new();
    let mut i: usize = 0;
    while i < n
        invariant
            0 <= i <= n,
            n == items@.len(),
            all == item_views(items@),
            flags@.len() == i,
            forall|k: int| 0 <= k < i ==> #[trigger] flags@[k] == orphan(all, all[k]),
        decreases n - i,
    {
        let o = is_orphan(items, i);
        flags.push(o);
        i += 1;
    }
    let mut rest: Vec<ResponseItem> = Vec::new();
    std::mem::swap(&mut rest, items);
    assert(item_views(rest@) =~= all.skip(0));
    let mut out: Vec<ResponseItem> = Vec::new();
    let mut removed: Vec<usize> = Vec::new();
    let mut j: usize = 0;
    while j < n
        invariant
            0 <= j <= n,
            n == all.len(),
            flags@.len() == n,
            forall|k: int| 0 <= k < n ==> #[trigger] flags@[k] == orphan(all, all[k]),
            rest@.len() == n - j,
            item_views(rest@) == all.skip(j as int),
            item_views(out@) == without_orphans(all, j as nat),
            out@.len() <= j,
            removed@.map_values(|i: usize| i as nat) == orphan_removals(all, j as nat),
        decreases n - j,
    {
        let ghost before = rest@;
        let ghost out_before = out@;
        let ghost removed_before = removed@;
        let x = rest.remove(0);
        proof {
            assert(item_views(before)[0] == all[j as int]);
            assert(x@ == all[j as int]);
            assert(item_views(rest@) =~= all.skip(j + 1)) by {
                assert forall|k: int| 0 <= k < rest@.len() implies #[trigger] item_views(rest@)[k] == all.skip(j + 1)[k] by {
                    assert(rest@[k] == before[k + 1]);
                    assert(item_views(before)[k + 1] == all.skip(j as int)[k + 1]);
                }
            }
        }
        if flags[j] {
            removed.push(out.len());
            proof {
                assert(removed@.map_values(|i: usize| i as nat) =~= removed_before.map_values(
                    |i: usize| i as nat,
                ).push(out_before.len() as nat));
                assert(item_views(out@) =~= without_orphans(all, (j + 1) as nat));
            }
        } else {
            out.push(x);
            proof {
                assert(item_views(out@) =~= item_views(out_before) + seq![all[j as int]]);
                assert(removed@.map_values(|i: usize| i as nat) =~= orphan_removals(all, (j + 1) as nat));
            }
        }
        j += 1;
    }
    *items = out;
    removed
}

// ---------------------------------------------------------------------------
// The counterpart of a removed item
// ---------------------------------------------------------------------------

/// Whether `c` is the counterpart that `item` looks for first: the output of
/// a call, or the call of an output (a function call, for a function output).
pub open spec fn answers(item: ItemView, c: ItemView) -> bool {
    match item {
        ItemView::FunctionCall { call_id, .. } => is_function_output_for(c, call_id),
        ItemView::FunctionCallOutput { call_id, .. } => is_function_call_for(c, call_id),
        ItemView::CustomToolCall { call_id, .. } => is_custom_output_for(c, call_id),
        ItemView::CustomToolCallOutput { call_id, .. } => is_custom_call_for(c, call_id),
        ItemView::LocalShellCall { call_id: Some(id), .. } => is_function_output_for(c, id),
        _ => false,
    }
}

/// Whether `c` is the counterpart that a function output looks for when no
/// function call answers it: a local shell call with its id.
pub open spec fn answers_otherwise(item: ItemView, c: ItemView) -> bool {
    match item {
        ItemView::FunctionCallOutput { call_id, .. } => is_shell_call_for(c, call_id),
        _ => false,
    }
}

/// Whether `c` is what `item` looks for: its first choice, or with
/// `otherwise` its second.
pub open spec fn looks_for(item: ItemView, otherwise: bool, c: ItemView) -> bool {
    if otherwise {
        answers_otherwise(item, c)
    } else {
        answers(item, c)
    }
}

/// The first index from `i` on of an item of `all` that `item` looks for.
pub open spec fn first_match(all: Seq<ItemView>, item: ItemView, otherwise: bool, i: int) -> Option<int>
    decreases all.len() - i,
{
    if i < 0 || i >= all.len() {
        None
    } else if looks_for(item, otherwise, all[i]) {
        Some(i)
    } else {
        first_match(all, item, otherwise, i + 1)
    }
}

/// Where the counterpart of `item` is in `all`, if anywhere.
pub open spec fn counterpart(all: Seq<ItemView>, item: ItemView) -> Option<int> {
    match first_match(all, item, false, 0) {
        Some(p) => Some(p),
        None => first_match(all, item, true, 0),
    }
}

proof fn lemma_first_match(all: Seq<ItemView>, item: ItemView, otherwise: bool, i: int, j: int)
    requires
        0 <= i <= j <= all.len(),
        forall|k: int| i <= k < j ==> !looks_for(item, otherwise, #[trigger] all[k]),
        j < all.len() ==> looks_for(item, otherwise, all[j]),
    ensures
        first_match(all, item, otherwise, i) == if j < all.len() {
            Some(j)
        } else {
            None
        },
    decreases j - i,
{
    if i < j {
        lemma_first_match(all, item, otherwise, i + 1, j);
    }
}

/// The position of the first item that `item` looks for.
fn position_of_counterpart(items: &Vec<ResponseItem>, item: &ResponseItem, otherwise: bool) -> (r: Option<usize>)
    ensures
        match first_match(item_views(items@), item@, otherwise, 0) {
            Some(p) => 0 <= p < items@.len() && r == Some(p as usize),
            None => r is None,
        },
{
    let ghost all = item_views(items@);
    let mut j: usize = 0;
    while j < items.len()
        invariant
            0 <= j <= items@.len(),
            all == item_views(items@),
            forall|k: int| 0 <= k < j ==> !looks_for(item@, otherwise, #[trigger] all[k]),
        decreases items.len() - j,
    {
        let found = match (item, &items[j]) {
            (ResponseItem::FunctionCall { call_id, .. }, ResponseItem::FunctionCallOutput { call_id: c, .. }) => !otherwise && str_eq(c.as_str(), call_id.as_str()),
            (ResponseItem::FunctionCallOutput { call_id, .. }, ResponseItem::FunctionCall { call_id: c, .. }) => !otherwise && str_eq(c.as_str(), call_id.as_str()),
            (ResponseItem::FunctionCallOutput { call_id, .. }, ResponseItem::LocalShellCall { call_id: Some(c), .. }) => otherwise && str_eq(c.as_str(), call_id.as_str()),
            (ResponseItem::CustomToolCall { call_id, .. }, ResponseItem::CustomToolCallOutput { call_id: c, .. }) => !otherwise && str_eq(c.as_str(), call_id.as_str()),
            (ResponseItem::CustomToolCallOutput { call_id, .. }, ResponseItem::CustomToolCall { call_id: c, .. }) => !otherwise && str_eq(c.as_str(), call_id.as_str()),
            (ResponseItem::LocalShellCall { call_id: Some(id), .. }, ResponseItem::FunctionCallOutput { call_id: c, .. }) => !otherwise && str_eq(c.as_str(), id.as_str()),
            _ => false,
        };
        assert(found == looks_for(item@, otherwise, all[j as int]));
        if found {
            proof {
                lemma_first_match(all, item@, otherwise, 0, j as int);
            }
            return Some(j);
        }
        j += 1;
    }
    proof {
        lemma_first_match(all, item@, otherwise, 0, all.len() as int);
    }
    None
}

/// Removes the first item that `item` looks for, if there is one, and
/// returns its position.
fn remove_first_matching(items: &mut Vec<ResponseItem>, item: &ResponseItem, otherwise: bool) -> (r: Option<usize>)
    ensures
        match first_match(item_views(old(items)@), item@, otherwise, 0) {
            Some(p) => 0 <= p < old(items)@.len() && r == Some(p as usize) && item_views(final(items)@)
                == item_views(old(items)@).remove(p),
            None => r is None && final(items)@ == old(items)@,
        },
{
    match position_of_counterpart(items, item, otherwise) {
        Some(pos) => {
            let ghost before = items@;
            items.remove(pos);
            assert(item_views(items@) =~= item_views(before).remove(pos as int));
            Some(pos)
        },
        None => None,
    }
}

/// After `item` left the history, removes its counterpart: the output of a
/// call, or the call of an output (for a function output, a function call,
/// else a local shell call with its id). Returns where it was.
pub fn remove_corresponding_for(items: &mut Vec<ResponseItem>, item: &ResponseItem) -> (r: Option<usize>)
    ensures
        match counterpart(item_views(old(items)@), item@) {
            Some(p) => 0 <= p < old(items)@.len() && r == Some(p as usize) && item_views(final(items)@)
                == item_views(old(items)@).remove(p),
            None => r is None && final(items)@ == old(items)@,
        },
{
    let first = remove_first_matching(items, item, false);
    if first.is_some() {
        return first;
    }
    remove_first_matching(items, item, true)
}

// ---------------------------------------------------------------------------
// The invariants
// ---------------------------------------------------------------------------

/// Every call of `s` has its output in `s`.
pub open spec fn calls_answered(s: Seq<ItemView>) -> bool {
    forall|i: int| 0 <= i < s.len() ==> !missing_output(s, #[trigger] s[i])
}

/// Every output of `s` has its call in `s`.
pub open spec fn outputs_answered(s: Seq<ItemView>) -> bool {
    forall|i: int| 0 <= i < s.len() ==> !orphan(s, #[trigger] s[i])
}

/// Whether `v` is one of `s`.
spec fn occurs(s: Seq<ItemView>, v: ItemView) -> bool {
    exists|i: int| 0 <= i < s.len() && #[trigger] s[i] == v
}

proof fn lemma_occurs_concat(a: Seq<ItemView>, b: Seq<ItemView>, v: ItemView)
    ensures
        occurs(a + b, v) <==> occurs(a, v) || occurs(b, v),
{
    if occurs(a + b, v) {
        let i = choose|i: int| 0 <= i < (a + b).len() && #[trigger] (a + b)[i] == v;
        if i < a.len() {
            assert(a[i] == v);
        } else {
            assert(b[i - a.len()] == v);
        }
    }
    if occurs(a, v) {
        let i = choose|i: int| 0 <= i < a.len() && #[trigger] a[i] == v;
        assert((a + b)[i] == v);
    }
    if occurs(b, v) {
        let i = choose|i: int| 0 <= i < b.len() && #[trigger] b[i] == v;
        assert((a + b)[a.len() + i] == v);
    }
}

/// What `with_outputs(all, n)` holds: each of the first `n` items, and the
/// synthetic output of each of them whose output is missing; nothing else.
proof fn lemma_with_outputs_members(all: Seq<ItemView>, n: nat, v: ItemView)
    requires
        n <= all.len(),
    ensures
        occurs(with_outputs(all, n), v) <==> exists|k: int|
            0 <= k < n && (#[trigger] all[k] == v || (missing_output(all, all[k]) && synthetic_output(all[k]) == v)),
    decreases n,
{
    if n > 0 {
        let m = (n - 1) as nat;
        lemma_with_outputs_members(all, m, v);
        let p = with_outputs(all, m);
        let x = all[m as int];
        let tail: Seq<ItemView> = if missing_output(all, x) {
            seq![synthetic_output(x)]
        } else {
            Seq::empty()
        };
        assert(with_outputs(all, n) == p + seq![x] + tail);
        lemma_occurs_concat(p + seq![x], tail, v);
        lemma_occurs_concat(p, seq![x], v);
        if occurs(seq![x], v) {
            let i = choose|i: int| 0 <= i < 1 && #[trigger] seq![x][i] == v;
            assert(all[m as int] == v);
        }
        if occurs(tail, v) {
            let i = choose|i: int| 0 <= i < tail.len() && #[trigger] tail[i] == v;
            assert(missing_output(all, all[m as int]) && synthetic_output(all[m as int]) == v);
        }
        if exists|k: int|
            0 <= k < n && (#[trigger] all[k] == v || (missing_output(all, all[k]) && synthetic_output(all[k]) == v)) {
            let k = choose|k: int|
                0 <= k < n && (#[trigger] all[k] == v || (missing_output(all, all[k]) && synthetic_output(all[k]) == v));
            if k == m {
                if all[k] == v {
                    assert(seq![x][0] == v);
                } else {
                    assert(tail[0] == v);
                }
            }
        }
    }
}

/// What `without_orphans(all, n)` holds: the first `n` items that are not
/// orphans, and nothing else.
proof fn lemma_without_orphans_members(all: Seq<ItemView>, n: nat, v: ItemView)
    requires
        n <= all.len(),
    ensures
        occurs(without_orphans(all, n), v) <==> exists|k: int|
            0 <= k < n && #[trigger] all[k] == v && !orphan(all, v),
    decreases n,
{
    if n > 0 {
        let m = (n - 1) as nat;
        lemma_without_orphans_members(all, m, v);
        let p = without_orphans(all, m);
        let x = all[m as int];
        let tail: Seq<ItemView> = if orphan(all, x) {
            Seq::empty()
        } else {
            seq![x]
        };
        assert(without_orphans(all, n) == p + tail);
        lemma_occurs_concat(p, tail, v);
        if occurs(tail, v) {
            let i = choose|i: int| 0 <= i < tail.len() && #[trigger] tail[i] == v;
            assert(all[m as int] == v);
        }
        if exists|k: int| 0 <= k < n && #[trigger] all[k] == v && !orphan(all, v) {
            let k = choose|k: int| 0 <= k < n && #[trigger] all[k] == v && !orphan(all, v);
            if k == m {
                assert(tail[0] == v);
            }
        }
    }
}

/// Adding the missing outputs leaves every call with its output.
pub proof fn lemma_outputs_added(all: Seq<ItemView>)
    ensures
        calls_answered(with_outputs(all, all.len())),
{
    let r = with_outputs(all, all.len());
    assert forall|i: int| 0 <= i < r.len() implies !missing_output(r, #[trigger] r[i]) by {
        let v = r[i];
        assert(occurs(r, v));
        lemma_with_outputs_members(all, all.len(), v);
        let k = choose|k: int|
            0 <= k < all.len() && (#[trigger] all[k] == v || (missing_output(all, all[k]) && synthetic_output(all[k]) == v));
        if all[k] == v {
            if missing_output(all, v) {
                let o = synthetic_output(v);
                lemma_with_outputs_members(all, all.len(), o);
                let j = choose|j: int| 0 <= j < r.len() && #[trigger] r[j] == o;
                match v {
                    ItemView::FunctionCall { call_id, .. } => {
                        assert(is_function_output_for(r[j], call_id));
                    },
                    ItemView::CustomToolCall { call_id, .. } => {
                        assert(is_custom_output_for(r[j], call_id));
                    },
                    ItemView::LocalShellCall { call_id: Some(id), .. } => {
                        assert(is_function_output_for(r[j], id));
                    },
                    _ => {},
                }
            } else {
                match v {
                    ItemView::FunctionCall { call_id, .. } => {
                        let q = choose|q: int| 0 <= q < all.len() && is_function_output_for(#[trigger] all[q], call_id);
                        lemma_with_outputs_members(all, all.len(), all[q]);
                        let j = choose|j: int| 0 <= j < r.len() && #[trigger] r[j] == all[q];
                        assert(is_function_output_for(r[j], call_id));
                    },
                    ItemView::CustomToolCall { call_id, .. } => {
                        let q = choose|q: int| 0 <= q < all.len() && is_custom_output_for(#[trigger] all[q], call_id);
                        lemma_with_outputs_members(all, all.len(), all[q]);
                        let j = choose|j: int| 0 <= j < r.len() && #[trigger] r[j] == all[q];
                        assert(is_custom_output_for(r[j], call_id));
                    },
                    ItemView::LocalShellCall { call_id: Some(id), .. } => {
                        let q = choose|q: int| 0 <= q < all.len() && is_function_output_for(#[trigger] all[q], id);
                        lemma_with_outputs_members(all, all.len(), all[q]);
                        let j = choose|j: int| 0 <= j < r.len() && #[trigger] r[j] == all[q];
                        assert(is_function_output_for(r[j], id));
                    },
                    _ => {},
                }
            }
        }
    }
}

/// The history as normalization leaves it: the missing outputs added, then
/// the orphan outputs dropped.
pub open spec fn normalized(all: Seq<ItemView>) -> Seq<ItemView> {
    let r = with_outputs(all, all.len());
    without_orphans(r, r.len())
}

/// After normalization every call has its output and every output its call.
pub proof fn lemma_normalized_history(all: Seq<ItemView>)
    ensures
        calls_answered(normalized(all)),
        outputs_answered(normalized(all)),
{
    let r = with_outputs(all, all.len());
    let w = normalized(all);
    lemma_outputs_added(all);
    assert forall|i: int| 0 <= i < w.len() implies !orphan(w, #[trigger] w[i]) by {
        let v = w[i];
        assert(occurs(w, v));
        lemma_without_orphans_members(r, r.len(), v);
        let k = choose|k: int| 0 <= k < r.len() && #[trigger] r[k] == v && !orphan(r, v);
        match v {
            ItemView::FunctionCallOutput { call_id, .. } => {
                let q = choose|q: int|
                    0 <= q < r.len() && (is_function_call_for(#[trigger] r[q], call_id) || is_shell_call_for(r[q], call_id));
                assert(!orphan(r, r[q]));
                lemma_without_orphans_members(r, r.len(), r[q]);
                let j = choose|j: int| 0 <= j < w.len() && #[trigger] w[j] == r[q];
                assert(is_function_call_for(w[j], call_id) || is_shell_call_for(w[j], call_id));
            },
            ItemView::CustomToolCallOutput { call_id, .. } => {
                let q = choose|q: int| 0 <= q < r.len() && is_custom_call_for(#[trigger] r[q], call_id);
                assert(!orphan(r, r[q]));
                lemma_without_orphans_members(r, r.len(), r[q]);
                let j = choose|j: int| 0 <= j < w.len() && #[trigger] w[j] == r[q];
                assert(is_custom_call_for(w[j], call_id));
            },
            _ => {},
        }
    }
    assert forall|i: int| 0 <= i < w.len() implies !missing_output(w, #[trigger] w[i]) by {
        let v = w[i];
        assert(occurs(w, v));
        lemma_without_orphans_members(r, r.len(), v);
        let k = choose|k: int| 0 <= k < r.len() && #[trigger] r[k] == v && !orphan(r, v);
        assert(!missing_output(r, r[k]));
        match v {
            ItemView::FunctionCall { call_id, .. } => {
                let q = choose|q: int| 0 <= q < r.len() && is_function_output_for(#[trigger] r[q], call_id);
                assert(is_function_call_for(r[k], call_id));
                assert(!orphan(r, r[q]));
                lemma_without_orphans_members(r, r.len(), r[q]);
                let j = choose|j: int| 0 <= j < w.len() && #[trigger] w[j] == r[q];
                assert(is_function_output_for(w[j], call_id));
            },
            ItemView::CustomToolCall { call_id, .. } => {
                let q = choose|q: int| 0 <= q < r.len() && is_custom_output_for(#[trigger] r[q], call_id);
                assert(is_custom_call_for(r[k], call_id));
                assert(!orphan(r, r[q]));
                lemma_without_orphans_members(r, r.len(), r[q]);
                let j = choose|j: int| 0 <= j < w.len() && #[trigger] w[j] == r[q];
                assert(is_custom_output_for(w[j], call_id));
            },
            ItemView::LocalShellCall { call_id: Some(id), .. } => {
                let q = choose|q: int| 0 <= q < r.len() && is_function_output_for(#[trigger] r[q], id);
                assert(is_shell_call_for(r[k], id));
                assert(!orphan(r, r[q]));
                lemma_without_orphans_members(r, r.len(), r[q]);
                let j = choose|j: int| 0 <= j < w.len() && #[trigger] w[j] == r[q];
                assert(is_function_output_for(w[j], id));
            },
            _ => {},
        }
    }
}

// ---------------------------------------------------------------------------
// Sizes of the reported edits
// ---------------------------------------------------------------------------

/// The inserts that add the missing outputs name positions no greater than
/// the number of items, and there is one for each item they add.
pub proof fn lemma_output_inserts_bounds(all: Seq<ItemView>, n: nat)
    requires
        n <= all.len(),
    ensures
        with_outputs(all, n).len() == n + output_inserts(all, n).len(),
        forall|t: int| 0 <= t < output_inserts(all, n).len() ==> (#[trigger] output_inserts(all, n)[t]).0 <= n,
    decreases n,
{
    if n > 0 {
        let m = (n - 1) as nat;
        lemma_output_inserts_bounds(all, m);
        let p = output_inserts(all, m);
        let head: Seq<(nat, ItemView)> = if missing_output(all, all[m as int]) {
            seq![(n, synthetic_output(all[m as int]))]
        } else {
            Seq::empty()
        };
        assert(output_inserts(all, n) == head + p);
        assert forall|t: int| 0 <= t < output_inserts(all, n).len() implies (#[trigger] output_inserts(all, n)[t]).0 <= n by {
            if t >= head.len() {
                assert(output_inserts(all, n)[t] == p[t - head.len()]);
            }
        }
    }
}

/// The removes of the orphans name, each, a position below the number of
/// items still there when it comes; with the items kept they account for all.
pub proof fn lemma_orphan_removals_bounds(all: Seq<ItemView>, n: nat)
    requires
        n <= all.len(),
    ensures
        orphan_removals(all, n).len() + without_orphans(all, n).len() == n,
        forall|t: int| 0 <= t < orphan_removals(all, n).len() ==> #[trigger] orphan_removals(all, n)[t] + t < n,
    decreases n,
{
    if n > 0 {
        let m = (n - 1) as nat;
        lemma_orphan_removals_bounds(all, m);
        let p = orphan_removals(all, m);
        assert forall|t: int| 0 <= t < orphan_removals(all, n).len() implies #[trigger] orphan_removals(all, n)[t] + t < n by {
            if t < p.len() {
                assert(orphan_removals(all, n)[t] == p[t]);
            }
        }
    }
}

} // verus!
