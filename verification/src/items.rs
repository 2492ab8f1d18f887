//! The conversation items that the history records, and how each one is
//! described to the context tree: its role, its title, its body and the
//! chain of labels that places it in the tree.
use vstd::prelude::*;
use vstd::utf8::encode_utf8;

use crate::recorder::{EntryPayload, EntryRole, PayloadModel};
use crate::text::{append_str, copy_str, join, join_seq, nat_digits, str_eq, usize_to_decimal, views};

verus! {

// ---------------------------------------------------------------------------
// The items
// ---------------------------------------------------------------------------

/// A piece of message content.
#[derive(Clone, Debug)]
pub enum ContentItem {
    InputText { text: String },
    InputImage { image_url: String },
    OutputText { text: String },
}

/// A piece of message content as plain values.
pub enum ContentView {
    InputText(Seq<char>),
    InputImage(Seq<char>),
    OutputText(Seq<char>),
}

impl View for ContentItem {
    type V = ContentView;

    open spec fn view(&self) -> ContentView {
        match self {
            ContentItem::InputText { text } => ContentView::InputText(text@),
            ContentItem::InputImage { image_url } => ContentView::InputImage(image_url@),
            ContentItem::OutputText { text } => ContentView::OutputText(text@),
        }
    }
}

/// A line of a reasoning summary.
#[derive(Clone, Debug)]
pub enum ReasoningItemReasoningSummary {
    SummaryText { text: String },
}

impl View for ReasoningItemReasoningSummary {
    type V = Seq<char>;

    open spec fn view(&self) -> Seq<char> {
        match self {
            ReasoningItemReasoningSummary::SummaryText { text } => text@,
        }
    }
}

/// A piece of reasoning content.
#[derive(Clone, Debug)]
pub enum ReasoningItemContent {
    ReasoningText { text: String },
    Text { text: String },
}

/// A piece of reasoning content as plain values: its kind and its text.
pub enum ReasoningContentView {
    ReasoningText(Seq<char>),
    Text(Seq<char>),
}

impl ReasoningContentView {
    /// The text of the piece, whatever its kind.
    pub open spec fn text(self) -> Seq<char> {
        match self {
            ReasoningContentView::ReasoningText(t) => t,
            ReasoningContentView::Text(t) => t,
        }
    }
}

impl View for ReasoningItemContent {
    type V = ReasoningContentView;

    open spec fn view(&self) -> ReasoningContentView {
        match self {
            ReasoningItemContent::ReasoningText { text } => ReasoningContentView::ReasoningText(text@),
            ReasoningItemContent::Text { text } => ReasoningContentView::Text(text@),
        }
    }
}

/// A structured piece of a function call's output.
#[derive(Clone, Debug)]
pub enum FunctionCallOutputContentItem {
    InputText { text: String },
    InputImage { image_url: String },
}

/// A structured output piece as plain values.
pub enum OutputContentView {
    InputText(Seq<char>),
    InputImage(Seq<char>),
}

impl View for FunctionCallOutputContentItem {
    type V = OutputContentView;

    open spec fn view(&self) -> OutputContentView {
        match self {
            FunctionCallOutputContentItem::InputText { text } => OutputContentView::InputText(text@),
            FunctionCallOutputContentItem::InputImage { image_url } => OutputContentView::InputImage(
                image_url@,
            ),
        }
    }
}

/// The output of a function call: its text, optional structured pieces, and
/// whether it succeeded, where that is known.
#[derive(Clone, Debug)]
pub struct FunctionCallOutputPayload {
    pub content: String,
    pub content_items: Option<Vec<FunctionCallOutputContentItem>>,
    pub success: Option<bool>,
}

/// A function call output as plain values.
pub struct OutputView {
    pub content: Seq<char>,
    pub content_items: Option<Seq<OutputContentView>>,
    pub success: Option<bool>,
}

/// The views of structured output pieces.
pub open spec fn output_item_views(v: Seq<FunctionCallOutputContentItem>) -> Seq<OutputContentView> {
    v.map_values(|c: FunctionCallOutputContentItem| c@)
}

impl View for FunctionCallOutputPayload {
    type V = OutputView;

    open spec fn view(&self) -> OutputView {
        OutputView {
            content: self.content@,
            content_items: match self.content_items {
                Some(v) => Some(output_item_views(v@)),
                None => None,
            },
            success: self.success,
        }
    }
}

/// A shell command that the model asked to run.
#[derive(Clone, Debug)]
pub struct LocalShellExecAction {
    pub command: Vec<String>,
    pub timeout_ms: Option<u64>,
    pub working_directory: Option<String>,
    pub user: Option<String>,
}

/// What a local shell call does.
#[derive(Clone, Debug)]
pub enum LocalShellAction {
    Exec(LocalShellExecAction),
}

/// A shell command as plain values.
pub struct ExecView {
    pub command: Seq<Seq<char>>,
    pub timeout_ms: Option<u64>,
    pub working_directory: Option<Seq<char>>,
    pub user: Option<Seq<char>>,
}

/// The view of an optional string.
pub open spec fn opt_view(o: Option<String>) -> Option<Seq<char>> {
    match o {
        Some(s) => Some(s@),
        None => None,
    }
}

impl View for LocalShellAction {
    type V = ExecView;

    open spec fn view(&self) -> ExecView {
        match self {
            LocalShellAction::Exec(e) => ExecView {
                command: views(e.command@),
                timeout_ms: e.timeout_ms,
                working_directory: opt_view(e.working_directory),
                user: opt_view(e.user),
            },
        }
    }
}

/// Where a local shell call stands.
#[derive(Clone, Copy, Debug, PartialEq, Eq, Structural)]
pub enum LocalShellStatus {
    Completed,
    InProgress,
    Incomplete,
}

/// What a web search call does.
#[derive(Clone, Debug)]
pub enum WebSearchAction {
    Search { query: Option<String> },
    OpenPage { url: Option<String> },
    FindInPage { url: Option<String>, pattern: Option<String> },
    Other,
}

/// A web search action as plain values.
pub enum WebSearchView {
    Search(Option<Seq<char>>),
    OpenPage(Option<Seq<char>>),
    FindInPage(Option<Seq<char>>, Option<Seq<char>>),
    Other,
}

impl View for WebSearchAction {
    type V = WebSearchView;

    open spec fn view(&self) -> WebSearchView {
        match self {
            WebSearchAction::Search { query } => WebSearchView::Search(opt_view(*query)),
            WebSearchAction::OpenPage { url } => WebSearchView::OpenPage(opt_view(*url)),
            WebSearchAction::FindInPage { url, pattern } => WebSearchView::FindInPage(
                opt_view(*url),
                opt_view(*pattern),
            ),
            WebSearchAction::Other => WebSearchView::Other,
        }
    }
}

/// One item of the conversation history.
#[derive(Clone, Debug)]
pub enum ResponseItem {
    Message { role: String, content: Vec<ContentItem> },
    Reasoning {
        summary: Vec<ReasoningItemReasoningSummary>,
        content: Option<Vec<ReasoningItemContent>>,
        encrypted_content: Option<String>,
    },
    LocalShellCall { call_id: Option<String>, status: LocalShellStatus, action: LocalShellAction },
    FunctionCall { name: String, arguments: String, call_id: String },
    FunctionCallOutput { call_id: String, output: FunctionCallOutputPayload },
    CustomToolCall { call_id: String, name: String, input: String },
    CustomToolCallOutput { call_id: String, output: String },
    WebSearchCall { action: WebSearchAction },
    CompactionSummary { encrypted_content: String },
    GhostSnapshot,
    Other,
}

/// An item as plain values.
pub enum ItemView {
    Message { role: Seq<char>, content: Seq<ContentView> },
    Reasoning {
        summary: Seq<Seq<char>>,
        content: Option<Seq<ReasoningContentView>>,
        encrypted_content: Option<Seq<char>>,
    },
    LocalShellCall { call_id: Option<Seq<char>>, status: LocalShellStatus, action: ExecView },
    FunctionCall { name: Seq<char>, arguments: Seq<char>, call_id: Seq<char> },
    FunctionCallOutput { call_id: Seq<char>, output: OutputView },
    CustomToolCall { call_id: Seq<char>, name: Seq<char>, input: Seq<char> },
    CustomToolCallOutput { call_id: Seq<char>, output: Seq<char> },
    WebSearchCall { action: WebSearchView },
    CompactionSummary { encrypted_content: Seq<char> },
    GhostSnapshot,
    Other,
}

/// The views of message contents.
pub open spec fn content_views(v: Seq<ContentItem>) -> Seq<ContentView> {
    v.map_values(|c: ContentItem| c@)
}

/// The views of reasoning summary lines.
pub open spec fn summary_views(v: Seq<ReasoningItemReasoningSummary>) -> Seq<Seq<char>> {
    v.map_values(|c: ReasoningItemReasoningSummary| c@)
}

/// The views of reasoning contents.
pub open spec fn reasoning_views(v: Seq<ReasoningItemContent>) -> Seq<ReasoningContentView> {
    v.map_values(|c: ReasoningItemContent| c@)
}

/// The texts of reasoning contents.
pub open spec fn reasoning_texts(v: Seq<ReasoningContentView>) -> Seq<Seq<char>> {
    v.map_values(|c: ReasoningContentView| c.text())
}

impl View for ResponseItem {
    type V = ItemView;

    open spec fn view(&self) -> ItemView {
        match self {
            ResponseItem::Message { role, content } => ItemView::Message {
                role: role@,
                content: content_views(content@),
            },
            ResponseItem::Reasoning { summary, content, encrypted_content } => ItemView::Reasoning {
                summary: summary_views(summary@),
                content: match content {
                    Some(c) => Some(reasoning_views(c@)),
                    None => None,
                },
                encrypted_content: opt_view(*encrypted_content),
            },
            ResponseItem::LocalShellCall { call_id, status, action } => ItemView::LocalShellCall {
                call_id: opt_view(*call_id),
                status: *status,
                action: action@,
            },
            ResponseItem::FunctionCall { name, arguments, call_id } => ItemView::FunctionCall {
                name: name@,
                arguments: arguments@,
                call_id: call_id@,
            },
            ResponseItem::FunctionCallOutput { call_id, output } => ItemView::FunctionCallOutput {
                call_id: call_id@,
                output: output@,
            },
            ResponseItem::CustomToolCall { call_id, name, input } => ItemView::CustomToolCall {
                call_id: call_id@,
                name: name@,
                input: input@,
            },
            ResponseItem::CustomToolCallOutput { call_id, output } => ItemView::CustomToolCallOutput {
                call_id: call_id@,
                output: output@,
            },
            ResponseItem::WebSearchCall { action } => ItemView::WebSearchCall { action: action@ },
            ResponseItem::CompactionSummary { encrypted_content } => ItemView::CompactionSummary {
                encrypted_content: encrypted_content@,
            },
            ResponseItem::GhostSnapshot => ItemView::GhostSnapshot,
            ResponseItem::Other => ItemView::Other,
        }
    }
}

/// The views of a list of items.
pub open spec fn item_views(v: Seq<ResponseItem>) -> Seq<ItemView> {
    v.map_values(|i: ResponseItem| i@)
}

// ---------------------------------------------------------------------------
// Kinds
// ---------------------------------------------------------------------------

/// API messages include every non-system item (user and assistant messages,
/// reasoning, tool calls, tool outputs, shell calls and web searches).
pub open spec fn api_message(v: ItemView) -> bool {
    match v {
        ItemView::Message { role, .. } => role != "system"@,
        ItemView::GhostSnapshot => false,
        ItemView::Other => false,
        _ => true,
    }
}

/// Whether `item` is sent to the model as part of the history.
pub fn is_api_message(item: &ResponseItem) -> (r: bool)
    ensures
        r == api_message(item@),
{
    match item {
        ResponseItem::Message { role, .. } => !str_eq(role.as_str(), "system"),
        ResponseItem::FunctionCallOutput { .. }
        | ResponseItem::FunctionCall { .. }
        | ResponseItem::CustomToolCall { .. }
        | ResponseItem::CustomToolCallOutput { .. }
        | ResponseItem::LocalShellCall { .. }
        | ResponseItem::Reasoning { .. }
        | ResponseItem::WebSearchCall { .. }
        | ResponseItem::CompactionSummary { .. } => true,
        ResponseItem::GhostSnapshot => false,
        ResponseItem::Other => false,
    }
}

/// A rough size, in bytes of text, of encrypted reasoning whose encoding is
/// `encoded_len` bytes long: three quarters of it, less a fixed overhead of
/// 650, and never below zero.
pub open spec fn reasoning_length(encoded_len: nat) -> nat {
    let decoded = (if encoded_len * 3 > usize::MAX {
        usize::MAX as nat
    } else {
        encoded_len * 3
    }) / 4;
    if decoded > 650 {
        (decoded - 650) as nat
    } else {
        0
    }
}

/// The estimated decoded length of encrypted reasoning content.
pub fn estimate_reasoning_length(encoded_len: usize) -> (r: usize)
    ensures
        r == reasoning_length(encoded_len as nat),
{
    let tripled = if encoded_len > usize::MAX / 3 {
        usize::MAX
    } else {
        encoded_len * 3
    };
    let decoded = tripled / 4;
    if decoded > 650 {
        decoded - 650
    } else {
        0
    }
}

// ---------------------------------------------------------------------------
// Strings
// ---------------------------------------------------------------------------

/// `a` followed by `b`.
fn concat(a: &str, b: &str) -> (r: String)
    ensures
        r@ == a@ + b@,
{
    let mut r = copy_str(a);
    append_str(&mut r, b);
    r
}

/// What `{:?}` writes for a string: the string quoted, with its special
/// characters escaped.
pub uninterp spec fn str_debug(s: Seq<char>) -> Seq<char>;

/// `format!("{:?}", s)`: the `Debug` form of a string. Its result is named
/// by `str_debug`; nothing more of it is stated.
#[verifier::external_body]
fn debug_str(s: &str) -> (r: String)
    ensures
        r@ == str_debug(s@),
{
    format!("{:?}", s)
}

/// The `Debug` form of an optional string: `None`, or `Some(..)` around the
/// string's own.
pub open spec fn opt_debug(o: Option<Seq<char>>) -> Seq<char> {
    match o {
        Some(s) => "Some("@ + str_debug(s) + ")"@,
        None => "None"@,
    }
}

fn opt_debug_string(o: &Option<String>) -> (r: String)
    ensures
        r@ == opt_debug(opt_view(*o)),
{
    match o {
        Some(s) => {
            let mut r = copy_str("Some(");
            let d = debug_str(s.as_str());
            append_str(&mut r, d.as_str());
            append_str(&mut r, ")");
            r
        },
        None => copy_str("None"),
    }
}

/// The `Debug` form of a web search action, as the derived `Debug` writes it.
pub open spec fn web_search_debug(a: WebSearchView) -> Seq<char> {
    match a {
        WebSearchView::Search(q) => "Search { query: "@ + opt_debug(q) + " }"@,
        WebSearchView::OpenPage(u) => "OpenPage { url: "@ + opt_debug(u) + " }"@,
        WebSearchView::FindInPage(u, p) => "FindInPage { url: "@ + opt_debug(u) + ", pattern: "@
            + opt_debug(p) + " }"@,
        WebSearchView::Other => "Other"@,
    }
}

fn web_search_debug_string(a: &WebSearchAction) -> (r: String)
    ensures
        r@ == web_search_debug(a@),
{
    match a {
        WebSearchAction::Search { query } => {
            let mut r = copy_str("Search { query: ");
            let q = opt_debug_string(query);
            append_str(&mut r, q.as_str());
            append_str(&mut r, " }");
            r
        },
        WebSearchAction::OpenPage { url } => {
            let mut r = copy_str("OpenPage { url: ");
            let u = opt_debug_string(url);
            append_str(&mut r, u.as_str());
            append_str(&mut r, " }");
            r
        },
        WebSearchAction::FindInPage { url, pattern } => {
            let mut r = copy_str("FindInPage { url: ");
            let u = opt_debug_string(url);
            append_str(&mut r, u.as_str());
            append_str(&mut r, ", pattern: ");
            let p = opt_debug_string(pattern);
            append_str(&mut r, p.as_str());
            append_str(&mut r, " }");
            r
        },
        WebSearchAction::Other => copy_str("Other"),
    }
}

/// The `Debug` form of a shell status: its variant's name.
pub open spec fn status_debug(s: LocalShellStatus) -> Seq<char> {
    match s {
        LocalShellStatus::Completed => "Completed"@,
        LocalShellStatus::InProgress => "InProgress"@,
        LocalShellStatus::Incomplete => "Incomplete"@,
    }
}

fn status_debug_string(s: LocalShellStatus) -> (r: String)
    ensures
        r@ == status_debug(s),
{
    match s {
        LocalShellStatus::Completed => copy_str("Completed"),
        LocalShellStatus::InProgress => copy_str("InProgress"),
        LocalShellStatus::Incomplete => copy_str("Incomplete"),
    }
}

// ---------------------------------------------------------------------------
// Rendering an item's body
// ---------------------------------------------------------------------------

/// The text of a piece of message content.
pub open spec fn content_part(c: ContentView) -> Seq<char> {
    match c {
        ContentView::InputText(t) => t,
        ContentView::OutputText(t) => t,
        ContentView::InputImage(u) => "image: "@ + u,
    }
}

/// Message content as text: its pieces separated by blank lines.
pub open spec fn content_text(cs: Seq<ContentView>) -> Seq<char> {
    join_seq(cs.map_values(|c: ContentView| content_part(c)), "\n\n"@)
}

/// Renders message content.
pub fn render_content_items(content: &Vec<ContentItem>) -> (r: String)
    ensures
        r@ == content_text(content_views(content@)),
{
    let ghost cv = content_views(content@);
    let mut parts: Vec<String> = Vec::new();
    let mut i: usize = 0;
    while i < content.len()
        invariant
            0 <= i <= content@.len(),
            cv == content_views(content@),
            views(parts@) == cv.take(i as int).map_values(|c: ContentView| content_part(c)),
        decreases content.len() - i,
    {
        let part = match &content[i] {
            ContentItem::OutputText { text } => text.clone(),
            ContentItem::InputText { text } => text.clone(),
            ContentItem::InputImage { image_url } => concat("image: ", image_url.as_str()),
        };
        let ghost before = parts@;
        parts.push(part);
        proof {
            assert(part@ == content_part(cv[i as int]));
            assert(views(parts@) =~= views(before).push(part@));
            assert(cv.take(i + 1).map_values(|c: ContentView| content_part(c)) =~= cv.take(
                i as int,
            ).map_values(|c: ContentView| content_part(c)).push(content_part(cv[i as int])));
        }
        i += 1;
    }
    assert(cv.take(content@.len() as int) =~= cv);
    join(&parts, "\n\n")
}

/// A reasoning summary as text: its lines, or nothing where it has none.
pub open spec fn summary_text(lines: Seq<Seq<char>>) -> Option<Seq<char>> {
    if lines.len() == 0 {
        None
    } else {
        Some(join_seq(lines, "\n"@))
    }
}

/// The texts of a list of strings held in items, by a view of each.
fn summary_lines(summary: &Vec<ReasoningItemReasoningSummary>) -> (v: Vec<String>)
    ensures
        views(v@) == summary_views(summary@),
{
    let mut v: Vec<String> = Vec::new();
    let mut i: usize = 0;
    while i < summary.len()
        invariant
            0 <= i <= summary@.len(),
            views(v@) == summary_views(summary@).take(i as int),
        decreases summary.len() - i,
    {
        let t = match &summary[i] {
            ReasoningItemReasoningSummary::SummaryText { text } => text.clone(),
        };
        let ghost before = v@;
        v.push(t);
        proof {
            assert(views(v@) =~= views(before).push(t@));
            assert(summary_views(summary@).take(i + 1) =~= summary_views(summary@).take(i as int).push(
                summary@[i as int]@,
            ));
        }
        i += 1;
    }
    assert(summary_views(summary@).take(summary@.len() as int) =~= summary_views(summary@));
    v
}

/// Renders a reasoning summary, or nothing for an empty one.
pub fn render_reasoning_summary(summary: &Vec<ReasoningItemReasoningSummary>) -> (r: Option<String>)
    ensures
        match r {
            Some(t) => summary_text(summary_views(summary@)) == Some(t@),
            None => summary_text(summary_views(summary@)) is None,
        },
{
    let lines = summary_lines(summary);
    if lines.len() == 0 {
        None
    } else {
        Some(join(&lines, "\n"))
    }
}

/// Renders reasoning content: its pieces, one per line.
pub fn render_reasoning_content(content: &Vec<ReasoningItemContent>) -> (r: String)
    ensures
        r@ == join_seq(reasoning_texts(reasoning_views(content@)), "\n"@),
{
    let mut v: Vec<String> = Vec::new();
    let mut i: usize = 0;
    while i < content.len()
        invariant
            0 <= i <= content@.len(),
            views(v@) == reasoning_texts(reasoning_views(content@)).take(i as int),
        decreases content.len() - i,
    {
        let t = match &content[i] {
            ReasoningItemContent::ReasoningText { text } => text.clone(),
            ReasoningItemContent::Text { text } => text.clone(),
        };
        let ghost before = v@;
        v.push(t);
        proof {
            assert(views(v@) =~= views(before).push(t@));
            assert(reasoning_texts(reasoning_views(content@)).take(i + 1) =~= reasoning_texts(
                reasoning_views(content@),
            ).take(i as int).push(content@[i as int]@.text()));
        }
        i += 1;
    }
    assert(reasoning_texts(reasoning_views(content@)).take(content@.len() as int) =~= reasoning_texts(
        reasoning_views(content@),
    ));
    join(&v, "\n")
}

/// The text of a structured output piece.
pub open spec fn output_part(c: OutputContentView) -> Seq<char> {
    match c {
        OutputContentView::InputText(t) => t,
        OutputContentView::InputImage(u) => "image: "@ + u,
    }
}

/// Structured output pieces as text, one per line.
pub open spec fn output_items_text(cs: Seq<OutputContentView>) -> Seq<char> {
    join_seq(cs.map_values(|c: OutputContentView| output_part(c)), "\n"@)
}

/// Renders structured output pieces.
pub fn render_function_output_items(items: &Vec<FunctionCallOutputContentItem>) -> (r: String)
    ensures
        r@ == output_items_text(output_item_views(items@)),
{
    let ghost cv = output_item_views(items@);
    let mut parts: Vec<String> = Vec::new();
    let mut i: usize = 0;
    while i < items.len()
        invariant
            0 <= i <= items@.len(),
            cv == output_item_views(items@),
            views(parts@) == cv.take(i as int).map_values(|c: OutputContentView| output_part(c)),
        decreases items.len() - i,
    {
        let part = match &items[i] {
            FunctionCallOutputContentItem::InputText { text } => text.clone(),
            FunctionCallOutputContentItem::InputImage { image_url } => concat(
                "image: ",
                image_url.as_str(),
            ),
        };
        let ghost before = parts@;
        parts.push(part);
        proof {
            assert(part@ == output_part(cv[i as int]));
            assert(views(parts@) =~= views(before).push(part@));
            assert(cv.take(i + 1).map_values(|c: OutputContentView| output_part(c)) =~= cv.take(
                i as int,
            ).map_values(|c: OutputContentView| output_part(c)).push(output_part(cv[i as int])));
        }
        i += 1;
    }
    assert(cv.take(items@.len() as int) =~= cv);
    join(&parts, "\n")
}

/// A function call's output as text: its content, then its structured
/// pieces after a blank line where there are any.
pub open spec fn output_text(o: OutputView) -> Seq<char> {
    match o.content_items {
        Some(items) => {
            let extras = output_items_text(items);
            if extras.len() == 0 {
                o.content
            } else if o.content.len() == 0 {
                extras
            } else {
                o.content + "\n\n"@ + extras
            }
        },
        None => o.content,
    }
}

/// Renders a function call's output.
pub fn render_function_output(output: &FunctionCallOutputPayload) -> (r: String)
    ensures
        r@ == output_text(output@),
{
    let mut body = output.content.clone();
    if let Some(items) = &output.content_items {
        let extras = render_function_output_items(items);
        if !extras.as_str().is_empty() {
            if !body.as_str().is_empty() {
                append_str(&mut body, "\n\n");
            }
            append_str(&mut body, extras.as_str());
        }
    }
    body
}

/// The segments describing a shell command: the command, then the user, the
/// working directory and the status where there are any.
pub open spec fn shell_segments(a: ExecView, status: Option<LocalShellStatus>) -> Seq<Seq<char>> {
    seq![join_seq(a.command, " "@)] + (match a.user {
        Some(u) => seq!["user: "@ + u],
        None => Seq::empty(),
    }) + (match a.working_directory {
        Some(d) => seq!["cwd: "@ + d],
        None => Seq::empty(),
    }) + (match status {
        Some(s) => seq!["status: "@ + status_debug(s)],
        None => Seq::empty(),
    })
}

/// A shell command as text: its segments separated by ` | `.
pub open spec fn shell_text(a: ExecView, status: Option<LocalShellStatus>) -> Seq<char> {
    join_seq(shell_segments(a, status), " | "@)
}

/// Describes a local shell call.
pub fn describe_local_shell_action(action: &LocalShellAction, status: Option<LocalShellStatus>) -> (r: String)
    ensures
        r@ == shell_text(action@, status),
{
    match action {
        LocalShellAction::Exec(exec) => {
            let mut segments: Vec<String> = Vec::new();
            segments.push(join(&exec.command, " "));
            if let Some(user) = &exec.user {
                segments.push(concat("user: ", user.as_str()));
            }
            if let Some(dir) = &exec.working_directory {
                segments.push(concat("cwd: ", dir.as_str()));
            }
            if let Some(state) = status {
                let d = status_debug_string(state);
                segments.push(concat("status: ", d.as_str()));
            }
            proof {
                assert(views(segments@) =~= shell_segments(action@, status));
            }
            join(&segments, " | ")
        },
    }
}

/// The parts of a find-in-page action that are there, url first.
pub open spec fn find_parts(url: Option<Seq<char>>, pattern: Option<Seq<char>>) -> Seq<Seq<char>> {
    (match url {
        Some(u) => seq![u],
        None => Seq::empty(),
    }) + (match pattern {
        Some(p) => seq![p],
        None => Seq::empty(),
    })
}

/// A web search action as text.
pub open spec fn web_search_text(a: WebSearchView) -> Seq<char> {
    match a {
        WebSearchView::Search(q) => match q {
            Some(t) => t,
            None => "search"@,
        },
        WebSearchView::OpenPage(u) => match u {
            Some(t) => t,
            None => Seq::empty(),
        },
        WebSearchView::FindInPage(u, p) => join_seq(find_parts(u, p), " | "@),
        WebSearchView::Other => "web search action"@,
    }
}

/// Describes a web search action.
pub fn describe_web_search_action(action: &WebSearchAction) -> (r: String)
    ensures
        r@ == web_search_text(action@),
{
    match action {
        WebSearchAction::Search { query } => match query {
            Some(q) => q.clone(),
            None => copy_str("search"),
        },
        WebSearchAction::OpenPage { url } => match url {
            Some(u) => u.clone(),
            None => String::new(),
        },
        WebSearchAction::FindInPage { url, pattern } => {
            let mut parts: Vec<String> = Vec::new();
            if let Some(link) = url {
                parts.push(link.clone());
            }
            if let Some(pat) = pattern {
                parts.push(pat.clone());
            }
            proof {
                assert(views(parts@) =~= find_parts(opt_view(*url), opt_view(*pattern)));
            }
            join(&parts, " | ")
        },
        WebSearchAction::Other => copy_str("web search action"),
    }
}

/// The parts of a reasoning item's body: the summary, the content, and the
/// size of the encrypted content, each where there is one.
pub open spec fn reasoning_parts(
    summary: Seq<Seq<char>>,
    content: Option<Seq<ReasoningContentView>>,
    encrypted: Option<Seq<char>>,
) -> Seq<Seq<char>> {
    (match summary_text(summary) {
        Some(t) => seq![t],
        None => Seq::empty(),
    }) + (match content {
        Some(c) => seq![join_seq(reasoning_texts(c), "\n"@)],
        None => Seq::empty(),
    }) + (match encrypted {
        Some(e) => seq!["encrypted content: "@ + nat_digits((encode_utf8(e).len() as usize) as nat)],
        None => Seq::empty(),
    })
}

/// The body of an item: what the tree shows of it.
pub open spec fn body_of(v: ItemView) -> Seq<char> {
    match v {
        ItemView::Message { content, .. } => content_text(content),
        ItemView::Reasoning { summary, content, encrypted_content } => join_seq(
            reasoning_parts(summary, content, encrypted_content),
            "\n\n"@,
        ),
        ItemView::FunctionCall { arguments, .. } => arguments,
        ItemView::FunctionCallOutput { output, .. } => output_text(output),
        ItemView::CustomToolCall { input, .. } => input,
        ItemView::CustomToolCallOutput { output, .. } => output,
        ItemView::LocalShellCall { action, status, .. } => shell_text(action, Some(status)),
        ItemView::WebSearchCall { action } => web_search_text(action),
        ItemView::CompactionSummary { encrypted_content } => encrypted_content,
        ItemView::GhostSnapshot => Seq::empty(),
        ItemView::Other => Seq::empty(),
    }
}

/// Renders the body of an item.
pub fn entry_body(item: &ResponseItem) -> (r: String)
    ensures
        r@ == body_of(item@),
{
    match item {
        ResponseItem::Message { content, .. } => render_content_items(content),
        ResponseItem::Reasoning { summary, content, encrypted_content } => {
            let mut parts: Vec<String> = Vec::new();
            if let Some(text) = render_reasoning_summary(summary) {
                parts.push(text);
            }
            if let Some(content_items) = content {
                parts.push(render_reasoning_content(content_items));
            }
            if let Some(encrypted) = encrypted_content {
                let mut t = copy_str("encrypted content: ");
                let n = usize_to_decimal(encrypted.as_str().len());
                append_str(&mut t, n.as_str());
                parts.push(t);
            }
            proof {
                let sv = summary_views(summary@);
                let cv = match content {
                    Some(c) => Some(reasoning_views(c@)),
                    None => None,
                };
                assert(views(parts@) =~= reasoning_parts(sv, cv, opt_view(*encrypted_content)));
            }
            join(&parts, "\n\n")
        },
        ResponseItem::FunctionCall { arguments, .. } => arguments.clone(),
        ResponseItem::FunctionCallOutput { output, .. } => render_function_output(output),
        ResponseItem::CustomToolCall { input, .. } => input.clone(),
        ResponseItem::CustomToolCallOutput { output, .. } => output.clone(),
        ResponseItem::LocalShellCall { action, status, .. } => describe_local_shell_action(action, Some(*status)),
        ResponseItem::WebSearchCall { action } => describe_web_search_action(action),
        ResponseItem::CompactionSummary { encrypted_content } => encrypted_content.clone(),
        ResponseItem::GhostSnapshot => String::new(),
        ResponseItem::Other => String::new(),
    }
}

// ---------------------------------------------------------------------------
// Role, title, labels
// ---------------------------------------------------------------------------

/// Who produced an item.
pub open spec fn role_of(v: ItemView) -> EntryRole {
    match v {
        ItemView::Message { role, .. } => if role == "user"@ {
            EntryRole::User
        } else {
            EntryRole::Assistant
        },
        ItemView::Reasoning { .. } => EntryRole::Assistant,
        ItemView::FunctionCall { .. }
        | ItemView::FunctionCallOutput { .. }
        | ItemView::CustomToolCall { .. }
        | ItemView::CustomToolCallOutput { .. }
        | ItemView::LocalShellCall { .. }
        | ItemView::WebSearchCall { .. } => EntryRole::Tool,
        ItemView::CompactionSummary { .. } => EntryRole::Assistant,
        _ => EntryRole::Other,
    }
}

/// The role of an item.
pub fn entry_role(item: &ResponseItem) -> (r: EntryRole)
    ensures
        r == role_of(item@),
{
    match item {
        ResponseItem::Message { role, .. } => if str_eq(role.as_str(), "user") {
            EntryRole::User
        } else {
            EntryRole::Assistant
        },
        ResponseItem::Reasoning { .. } => EntryRole::Assistant,
        ResponseItem::FunctionCall { .. }
        | ResponseItem::FunctionCallOutput { .. }
        | ResponseItem::CustomToolCall { .. }
        | ResponseItem::CustomToolCallOutput { .. }
        | ResponseItem::LocalShellCall { .. }
        | ResponseItem::WebSearchCall { .. } => EntryRole::Tool,
        ResponseItem::CompactionSummary { .. } => EntryRole::Assistant,
        _ => EntryRole::Other,
    }
}

/// The title of an item.
pub open spec fn title_of(v: ItemView) -> Seq<char> {
    match v {
        ItemView::Message { role, .. } => role + " message"@,
        ItemView::Reasoning { .. } => "assistant reasoning"@,
        ItemView::FunctionCall { name, .. } => "function call: "@ + name,
        ItemView::FunctionCallOutput { call_id, .. } => "function output: "@ + call_id,
        ItemView::CustomToolCall { name, .. } => "tool call: "@ + name,
        ItemView::CustomToolCallOutput { call_id, .. } => "tool output: "@ + call_id,
        ItemView::LocalShellCall { .. } => "local shell call"@,
        ItemView::WebSearchCall { .. } => "web search"@,
        ItemView::CompactionSummary { .. } => "compaction summary"@,
        ItemView::GhostSnapshot => "ghost snapshot"@,
        ItemView::Other => "other"@,
    }
}

/// Renders the title of an item.
pub fn entry_title(item: &ResponseItem) -> (r: String)
    ensures
        r@ == title_of(item@),
{
    match item {
        ResponseItem::Message { role, .. } => concat(role.as_str(), " message"),
        ResponseItem::Reasoning { .. } => copy_str("assistant reasoning"),
        ResponseItem::FunctionCall { name, .. } => concat("function call: ", name.as_str()),
        ResponseItem::FunctionCallOutput { call_id, .. } => concat("function output: ", call_id.as_str()),
        ResponseItem::CustomToolCall { name, .. } => concat("tool call: ", name.as_str()),
        ResponseItem::CustomToolCallOutput { call_id, .. } => concat("tool output: ", call_id.as_str()),
        ResponseItem::LocalShellCall { .. } => copy_str("local shell call"),
        ResponseItem::WebSearchCall { .. } => copy_str("web search"),
        ResponseItem::CompactionSummary { .. } => copy_str("compaction summary"),
        ResponseItem::GhostSnapshot => copy_str("ghost snapshot"),
        ResponseItem::Other => copy_str("other"),
    }
}

/// The payload that the tree records for an item.
pub open spec fn payload_of(v: ItemView) -> PayloadModel {
    PayloadModel { role: role_of(v), title: title_of(v), body: body_of(v) }
}

/// Builds the payload of an item.
pub fn build_entry_payload(item: &ResponseItem) -> (p: EntryPayload)
    ensures
        p@ == payload_of(item@),
{
    EntryPayload::new(entry_role(item), entry_title(item), entry_body(item))
}

/// The labels that an item's kind adds after the task label.
pub open spec fn kind_labels(v: ItemView) -> Seq<Seq<char>> {
    match v {
        ItemView::Message { role, .. } => seq!["role:"@ + role],
        ItemView::Reasoning { .. } => seq!["assistant"@, "reasoning"@],
        ItemView::FunctionCall { call_id, .. } => seq!["functions"@, "call:"@ + call_id],
        ItemView::FunctionCallOutput { call_id, .. } => seq!["functions"@, "call:"@ + call_id],
        ItemView::CustomToolCall { call_id, name, .. } => seq![
            "custom_tools"@,
            "call:"@ + call_id,
            "tool:"@ + name,
        ],
        ItemView::CustomToolCallOutput { call_id, .. } => seq!["custom_tools"@, "call:"@ + call_id],
        ItemView::LocalShellCall { call_id, .. } => seq!["shell"@] + match call_id {
            Some(id) => seq!["call:"@ + id],
            None => Seq::empty(),
        },
        ItemView::WebSearchCall { action } => seq!["web_search"@, "action:"@ + web_search_debug(action)],
        ItemView::CompactionSummary { .. } => seq!["compaction"@],
        ItemView::GhostSnapshot => Seq::empty(),
        ItemView::Other => seq!["other"@],
    }
}

/// The label chain of an item: `task:<id>` where there is a task, then the
/// labels of its kind.
pub open spec fn labels_of(v: ItemView, task_id: Option<Seq<char>>) -> Seq<Seq<char>> {
    (match task_id {
        Some(t) => seq!["task:"@ + t],
        None => Seq::empty(),
    }) + kind_labels(v)
}

/// A label made of the prefix `p` and more cannot be `w` where `p` and `w`
/// differ at some index of `p`.
proof fn lemma_differs_early(l: Seq<char>, p: Seq<char>, x: Seq<char>, w: Seq<char>, k: int)
    requires
        l == p + x,
        0 <= k < p.len(),
        k < w.len(),
        p[k] != w[k],
    ensures
        l != w,
{
    assert(l[k] == p[k]);
}

/// The labels of an item's kind never name the conversation.
proof fn lemma_kind_labels_skip_conversation(v: ItemView)
    ensures
        forall|i: int| 0 <= i < kind_labels(v).len() ==> #[trigger] kind_labels(v)[i] != "conversation"@,
{
    reveal_strlit("conversation");
    reveal_strlit("role:");
    reveal_strlit("assistant");
    reveal_strlit("reasoning");
    reveal_strlit("functions");
    reveal_strlit("call:");
    reveal_strlit("custom_tools");
    reveal_strlit("tool:");
    reveal_strlit("shell");
    reveal_strlit("web_search");
    reveal_strlit("action:");
    reveal_strlit("compaction");
    reveal_strlit("other");
    let w = "conversation"@;
    let e = Seq::<char>::empty();
    match v {
        ItemView::Message { role, .. } => {
            lemma_differs_early(kind_labels(v)[0], "role:"@, role, w, 0);
        },
        ItemView::Reasoning { .. } => {
            lemma_differs_early(kind_labels(v)[0], "assistant"@, e, w, 0);
            lemma_differs_early(kind_labels(v)[1], "reasoning"@, e, w, 0);
        },
        ItemView::FunctionCall { call_id, .. } => {
            lemma_differs_early(kind_labels(v)[0], "functions"@, e, w, 0);
            lemma_differs_early(kind_labels(v)[1], "call:"@, call_id, w, 1);
        },
        ItemView::FunctionCallOutput { call_id, .. } => {
            lemma_differs_early(kind_labels(v)[0], "functions"@, e, w, 0);
            lemma_differs_early(kind_labels(v)[1], "call:"@, call_id, w, 1);
        },
        ItemView::CustomToolCall { call_id, name, .. } => {
            lemma_differs_early(kind_labels(v)[0], "custom_tools"@, e, w, 1);
            lemma_differs_early(kind_labels(v)[1], "call:"@, call_id, w, 1);
            lemma_differs_early(kind_labels(v)[2], "tool:"@, name, w, 0);
        },
        ItemView::CustomToolCallOutput { call_id, .. } => {
            lemma_differs_early(kind_labels(v)[0], "custom_tools"@, e, w, 1);
            lemma_differs_early(kind_labels(v)[1], "call:"@, call_id, w, 1);
        },
        ItemView::LocalShellCall { call_id, .. } => {
            lemma_differs_early(kind_labels(v)[0], "shell"@, e, w, 0);
            if let Some(id) = call_id {
                lemma_differs_early(kind_labels(v)[1], "call:"@, id, w, 1);
            }
        },
        ItemView::WebSearchCall { action } => {
            lemma_differs_early(kind_labels(v)[0], "web_search"@, e, w, 0);
            lemma_differs_early(kind_labels(v)[1], "action:"@, web_search_debug(action), w, 0);
        },
        ItemView::CompactionSummary { .. } => {
            lemma_differs_early(kind_labels(v)[0], "compaction"@, e, w, 2);
        },
        ItemView::GhostSnapshot => {},
        ItemView::Other => {
            lemma_differs_early(kind_labels(v)[0], "other"@, e, w, 0);
        },
    }
}

/// Label chains of one task share their first label, `task:<id>`, so the
/// task's entries collapse under one branch; no chain names the
/// conversation; and a function call and its output, having the same call
/// id, get the same chain.
pub proof fn lemma_task_labels_share_a_branch(a: ItemView, b: ItemView, task_id: Option<Seq<char>>)
    ensures
        task_id matches Some(t) ==> labels_of(a, task_id)[0] == "task:"@ + t && labels_of(b, task_id)[0]
            == labels_of(a, task_id)[0],
        forall|i: int| 0 <= i < labels_of(a, task_id).len() ==> #[trigger] labels_of(a, task_id)[i] != "conversation"@,
        (a matches ItemView::FunctionCall { call_id: c, .. } && b matches ItemView::FunctionCallOutput {
            call_id: d,
            ..
        } && c == d) ==> labels_of(a, task_id) == labels_of(b, task_id),
{
    reveal_strlit("conversation");
    reveal_strlit("task:");
    lemma_kind_labels_skip_conversation(a);
    let ls = labels_of(a, task_id);
    if let Some(t) = task_id {
        assert forall|i: int| 0 <= i < ls.len() implies #[trigger] ls[i] != "conversation"@ by {
            if i == 0 {
                lemma_differs_early(ls[0], "task:"@, t, "conversation"@, 0);
            } else {
                assert(ls[i] == kind_labels(a)[i - 1]);
            }
        }
    } else {
        assert(ls =~= kind_labels(a));
    }
}

/// Builds the label chain of an item.
pub fn build_entry_labels(item: &ResponseItem, task_id: Option<&str>) -> (labels: Vec<String>)
    ensures
        views(labels@) == labels_of(
            item@,
            match task_id {
                Some(t) => Some(t@),
                None => None,
            },
        ),
{
    let mut labels: Vec<String> = Vec::new();
    if let Some(task_id) = task_id {
        labels.push(concat("task:", task_id));
    }
    let ghost head = views(labels@);
    match item {
        ResponseItem::Message { role, .. } => {
            labels.push(concat("role:", role.as_str()));
        },
        ResponseItem::Reasoning { .. } => {
            labels.push(copy_str("assistant"));
            labels.push(copy_str("reasoning"));
        },
        ResponseItem::FunctionCall { call_id, .. } => {
            labels.push(copy_str("functions"));
            labels.push(concat("call:", call_id.as_str()));
        },
        ResponseItem::FunctionCallOutput { call_id, .. } => {
            labels.push(copy_str("functions"));
            labels.push(concat("call:", call_id.as_str()));
        },
        ResponseItem::CustomToolCall { call_id, name, .. } => {
            labels.push(copy_str("custom_tools"));
            labels.push(concat("call:", call_id.as_str()));
            labels.push(concat("tool:", name.as_str()));
        },
        ResponseItem::CustomToolCallOutput { call_id, .. } => {
            labels.push(copy_str("custom_tools"));
            labels.push(concat("call:", call_id.as_str()));
        },
        ResponseItem::LocalShellCall { call_id, .. } => {
            labels.push(copy_str("shell"));
            if let Some(id) = call_id {
                labels.push(concat("call:", id.as_str()));
            }
        },
        ResponseItem::WebSearchCall { action } => {
            labels.push(copy_str("web_search"));
            let d = web_search_debug_string(action);
            labels.push(concat("action:", d.as_str()));
        },
        ResponseItem::CompactionSummary { .. } => {
            labels.push(copy_str("compaction"));
        },
        ResponseItem::GhostSnapshot => {},
        ResponseItem::Other => {
            labels.push(copy_str("other"));
        },
    }
    proof {
        assert(views(labels@) =~= head + kind_labels(item@));
    }
    labels
}

// ---------------------------------------------------------------------------
// Copies
// ---------------------------------------------------------------------------

fn copy_opt_string(o: &Option<String>) -> (r: Option<String>)
    ensures
        opt_view(r) == opt_view(*o),
{
    match o {
        Some(s) => Some(s.clone()),
        None => None,
    }
}

fn copy_content_items(v: &Vec<ContentItem>) -> (r: Vec<ContentItem>)
    ensures
        content_views(r@) == content_views(v@),
{
    let mut r: Vec<ContentItem> = Vec::new();
    let mut i: usize = 0;
    while i < v.len()
        invariant
            0 <= i <= v@.len(),
            content_views(r@) == content_views(v@).take(i as int),
        decreases v.len() - i,
    {
        let c = match &v[i] {
            ContentItem::InputText { text } => ContentItem::InputText { text: text.clone() },
            ContentItem::InputImage { image_url } => ContentItem::InputImage { image_url: image_url.clone() },
            ContentItem::OutputText { text } => ContentItem::OutputText { text: text.clone() },
        };
        let ghost before = r@;
        r.push(c);
        proof {
            assert(content_views(r@) =~= content_views(before).push(c@));
            assert(content_views(v@).take(i + 1) =~= content_views(v@).take(i as int).push(v@[i as int]@));
        }
        i += 1;
    }
    assert(content_views(v@).take(v@.len() as int) =~= content_views(v@));
    r
}

fn copy_summary(v: &Vec<ReasoningItemReasoningSummary>) -> (r: Vec<ReasoningItemReasoningSummary>)
    ensures
        summary_views(r@) == summary_views(v@),
{
    let mut r: Vec<ReasoningItemReasoningSummary> = Vec::new();
    let mut i: usize = 0;
    while i < v.len()
        invariant
            0 <= i <= v@.len(),
            summary_views(r@) == summary_views(v@).take(i as int),
        decreases v.len() - i,
    {
        let c = match &v[i] {
            ReasoningItemReasoningSummary::SummaryText { text } => ReasoningItemReasoningSummary::SummaryText {
                text: text.clone(),
            },
        };
        let ghost before = r@;
        r.push(c);
        proof {
            assert(summary_views(r@) =~= summary_views(before).push(c@));
            assert(summary_views(v@).take(i + 1) =~= summary_views(v@).take(i as int).push(v@[i as int]@));
        }
        i += 1;
    }
    assert(summary_views(v@).take(v@.len() as int) =~= summary_views(v@));
    r
}

fn copy_reasoning(v: &Vec<ReasoningItemContent>) -> (r: Vec<ReasoningItemContent>)
    ensures
        reasoning_views(r@) == reasoning_views(v@),
{
    let mut r: Vec<ReasoningItemContent> = Vec::new();
    let mut i: usize = 0;
    while i < v.len()
        invariant
            0 <= i <= v@.len(),
            reasoning_views(r@) == reasoning_views(v@).take(i as int),
        decreases v.len() - i,
    {
        let c = match &v[i] {
            ReasoningItemContent::ReasoningText { text } => ReasoningItemContent::ReasoningText { text: text.clone() },
            ReasoningItemContent::Text { text } => ReasoningItemContent::Text { text: text.clone() },
        };
        let ghost before = r@;
        r.push(c);
        proof {
            assert(reasoning_views(r@) =~= reasoning_views(before).push(c@));
            assert(reasoning_views(v@).take(i + 1) =~= reasoning_views(v@).take(i as int).push(v@[i as int]@));
        }
        i += 1;
    }
    assert(reasoning_views(v@).take(v@.len() as int) =~= reasoning_views(v@));
    r
}

fn copy_output_items(v: &Vec<FunctionCallOutputContentItem>) -> (r: Vec<FunctionCallOutputContentItem>)
    ensures
        output_item_views(r@) == output_item_views(v@),
{
    let mut r: Vec<FunctionCallOutputContentItem> = Vec::new();
    let mut i: usize = 0;
    while i < v.len()
        invariant
            0 <= i <= v@.len(),
            output_item_views(r@) == output_item_views(v@).take(i as int),
        decreases v.len() - i,
    {
        let c = match &v[i] {
            FunctionCallOutputContentItem::InputText { text } => FunctionCallOutputContentItem::InputText {
                text: text.clone(),
            },
            FunctionCallOutputContentItem::InputImage { image_url } => FunctionCallOutputContentItem::InputImage {
                image_url: image_url.clone(),
            },
        };
        let ghost before = r@;
        r.push(c);
        proof {
            assert(output_item_views(r@) =~= output_item_views(before).push(c@));
            assert(output_item_views(v@).take(i + 1) =~= output_item_views(v@).take(i as int).push(v@[i as int]@));
        }
        i += 1;
    }
    assert(output_item_views(v@).take(v@.len() as int) =~= output_item_views(v@));
    r
}

fn copy_web_search_action(a: &WebSearchAction) -> (r: WebSearchAction)
    ensures
        r@ == a@,
{
    match a {
        WebSearchAction::Search { query } => WebSearchAction::Search { query: copy_opt_string(query) },
        WebSearchAction::OpenPage { url } => WebSearchAction::OpenPage { url: copy_opt_string(url) },
        WebSearchAction::FindInPage { url, pattern } => WebSearchAction::FindInPage {
            url: copy_opt_string(url),
            pattern: copy_opt_string(pattern),
        },
        WebSearchAction::Other => WebSearchAction::Other,
    }
}

/// A copy of an item.
pub fn copy_item(item: &ResponseItem) -> (r: ResponseItem)
    ensures
        r@ == item@,
{
    match item {
        ResponseItem::Message { role, content } => ResponseItem::Message {
            role: role.clone(),
            content: copy_content_items(content),
        },
        ResponseItem::Reasoning { summary, content, encrypted_content } => ResponseItem::Reasoning {
            summary: copy_summary(summary),
            content: match content {
                Some(c) => Some(copy_reasoning(c)),
                None => None,
            },
            encrypted_content: copy_opt_string(encrypted_content),
        },
        ResponseItem::LocalShellCall { call_id, status, action } => ResponseItem::LocalShellCall {
            call_id: copy_opt_string(call_id),
            status: *status,
            action: match action {
                LocalShellAction::Exec(e) => LocalShellAction::Exec(
                    LocalShellExecAction {
                        command: crate::recorder::copy_labels(&e.command),
                        timeout_ms: e.timeout_ms,
                        working_directory: copy_opt_string(&e.working_directory),
                        user: copy_opt_string(&e.user),
                    },
                ),
            },
        },
        ResponseItem::FunctionCall { name, arguments, call_id } => ResponseItem::FunctionCall {
            name: name.clone(),
            arguments: arguments.clone(),
            call_id: call_id.clone(),
        },
        ResponseItem::FunctionCallOutput { call_id, output } => ResponseItem::FunctionCallOutput {
            call_id: call_id.clone(),
            output: FunctionCallOutputPayload {
                content: output.content.clone(),
                content_items: match &output.content_items {
                    Some(v) => Some(copy_output_items(v)),
                    None => None,
                },
                success: output.success,
            },
        },
        ResponseItem::CustomToolCall { call_id, name, input } => ResponseItem::CustomToolCall {
            call_id: call_id.clone(),
            name: name.clone(),
            input: input.clone(),
        },
        ResponseItem::CustomToolCallOutput { call_id, output } => ResponseItem::CustomToolCallOutput {
            call_id: call_id.clone(),
            output: output.clone(),
        },
        ResponseItem::WebSearchCall { action } => ResponseItem::WebSearchCall {
            action: copy_web_search_action(action),
        },
        ResponseItem::CompactionSummary { encrypted_content } => ResponseItem::CompactionSummary {
            encrypted_content: encrypted_content.clone(),
        },
        ResponseItem::GhostSnapshot => ResponseItem::GhostSnapshot,
        ResponseItem::Other => ResponseItem::Other,
    }
}

/// A copy of a list of items.
pub fn copy_items(v: &Vec<ResponseItem>) -> (r: Vec<ResponseItem>)
    ensures
        item_views(r@) == item_views(v@),
{
    let mut r: Vec<ResponseItem> = Vec::new();
    let mut i: usize = 0;
    while i < v.len()
        invariant
            0 <= i <= v@.len(),
            item_views(r@) == item_views(v@).take(i as int),
        decreases v.len() - i,
    {
        let c = copy_item(&v[i]);
        let ghost before = r@;
        r.push(c);
        proof {
            assert(item_views(r@) =~= item_views(before).push(c@));
            assert(item_views(v@).take(i + 1) =~= item_views(v@).take(i as int).push(v@[i as int]@));
        }
        i += 1;
    }
    assert(item_views(v@).take(v@.len() as int) =~= item_views(v@));
    r
}

} // verus!
