//! Splitting a markdown text into its code blocks and the literal text
//! between them, from the events and offsets that the markdown parser gives.

use crate::text::{
    byte_len, byte_length, byte_offset, find_char, is_span, is_span_of, lemma_ascii_width,
    lemma_byte_offset_ends, lemma_byte_offset_step, lemma_offset_is_boundary,
    lemma_slice_of_offsets, rfind_char, slice, slice_of,
};
use std::ops::Range;
use vstd::prelude::*;
use vstd::string::StringExecFns;

verus! {

/// How a code block is set off: by indentation, or by fences, with the info
/// string that follows the opening fence.
#[derive(Debug, PartialEq, Eq)]
pub enum BlockKind {
    Indented,
    Fenced(String),
}

pub enum BlockKindView {
    Indented,
    Fenced(Seq<char>),
}

impl View for BlockKind {
    type V = BlockKindView;

    open spec fn view(&self) -> BlockKindView {
        match self {
            BlockKind::Indented => BlockKindView::Indented,
            BlockKind::Fenced(info) => BlockKindView::Fenced(info@),
        }
    }
}

/// What this library reads of an event of the markdown parser: the start and
/// the end of a code block, and text. All other events are alike to it.
#[derive(Debug, PartialEq, Eq)]
pub enum EventKind {
    StartCodeBlock(BlockKind),
    EndCodeBlock,
    Text(String),
    Other,
}

pub enum EventKindView {
    StartCodeBlock(BlockKindView),
    EndCodeBlock,
    Text(Seq<char>),
    Other,
}

impl View for EventKind {
    type V = EventKindView;

    open spec fn view(&self) -> EventKindView {
        match self {
            EventKind::StartCodeBlock(kind) => EventKindView::StartCodeBlock(kind@),
            EventKind::EndCodeBlock => EventKindView::EndCodeBlock,
            EventKind::Text(text) => EventKindView::Text(text@),
            EventKind::Other => EventKindView::Other,
        }
    }
}

/// An event of the markdown parser, with the byte range of the source that it
/// covers.
#[derive(Debug, PartialEq, Eq)]
pub struct MarkdownEvent {
    pub kind: EventKind,
    pub offset: Range<usize>,
}

pub struct MarkdownEventView {
    pub kind: EventKindView,
    pub start: int,
    pub end: int,
}

impl View for MarkdownEvent {
    type V = MarkdownEventView;

    open spec fn view(&self) -> MarkdownEventView {
        MarkdownEventView {
            kind: self.kind@,
            start: self.offset.start as int,
            end: self.offset.end as int,
        }
    }
}

/// The views of a sequence of events, in order.
pub open spec fn event_views(events: Seq<MarkdownEvent>) -> Seq<MarkdownEventView> {
    events.map_values(|event: MarkdownEvent| event@)
}

/// A component of the text as a byte range: literal text, or a code block
/// with its kind and the text of its body.
#[derive(Debug, PartialEq, Eq)]
pub enum RangeComponent {
    LiteralText(Range<usize>),
    CodeBlock(BlockKind, Range<usize>, String),
}

pub enum RangeComponentView {
    LiteralText { start: int, end: int },
    CodeBlock { kind: BlockKindView, start: int, end: int, body: Seq<char> },
}

impl View for RangeComponent {
    type V = RangeComponentView;

    open spec fn view(&self) -> RangeComponentView {
        match self {
            RangeComponent::LiteralText(range) => RangeComponentView::LiteralText {
                start: range.start as int,
                end: range.end as int,
            },
            RangeComponent::CodeBlock(kind, range, body) => RangeComponentView::CodeBlock {
                kind: kind@,
                start: range.start as int,
                end: range.end as int,
                body: body@,
            },
        }
    }
}

/// The views of a sequence of range components, in order.
pub open spec fn range_views(components: Seq<RangeComponent>) -> Seq<RangeComponentView> {
    components.map_values(|component: RangeComponent| component@)
}

/// The flavor of a code block. Of a fenced one: the line of its opening
/// fence, the line of its closing fence unless the block runs to the end of
/// the text, and its info string.
#[derive(Debug, PartialEq, Eq)]
pub enum CodeBlockFlavor<'a> {
    Indented,
    Fenced { start_line: &'a str, end_line: Option<&'a str>, info_string: String },
}

pub enum CodeBlockFlavorView {
    Indented,
    Fenced { start_line: Seq<char>, end_line: Option<Seq<char>>, info_string: Seq<char> },
}

impl<'a> View for CodeBlockFlavor<'a> {
    type V = CodeBlockFlavorView;

    open spec fn view(&self) -> CodeBlockFlavorView {
        match self {
            CodeBlockFlavor::Indented => CodeBlockFlavorView::Indented,
            CodeBlockFlavor::Fenced { start_line, end_line, info_string } => CodeBlockFlavorView::Fenced {
                start_line: start_line@,
                end_line: match end_line {
                    Some(line) => Some(line@),
                    None => None,
                },
                info_string: info_string@,
            },
        }
    }
}

/// A component of the text: literal text, or a code block with its source,
/// its flavor and the text of its body.
#[derive(Debug, PartialEq, Eq)]
pub enum Component<'a> {
    LiteralText(&'a str),
    CodeBlock(&'a str, CodeBlockFlavor<'a>, String),
}

pub enum ComponentView {
    LiteralText(Seq<char>),
    CodeBlock { source: Seq<char>, flavor: CodeBlockFlavorView, body: Seq<char> },
}

impl<'a> View for Component<'a> {
    type V = ComponentView;

    open spec fn view(&self) -> ComponentView {
        match self {
            Component::LiteralText(source) => ComponentView::LiteralText(source@),
            Component::CodeBlock(source, flavor, body) => ComponentView::CodeBlock {
                source: source@,
                flavor: flavor@,
                body: body@,
            },
        }
    }
}

/// The views of a sequence of components, in order.
pub open spec fn component_views(components: Seq<Component>) -> Seq<ComponentView> {
    components.map_values(|component: Component| component@)
}

/// The ways in which events fail to split a text into components.
#[derive(Debug, PartialEq, Eq)]
pub enum ComponentError {
    /// Inside a code block an event came that neither is text nor ends the
    /// block.
    UnexpectedEvent,
    /// The events ended inside a code block.
    NoClosingTag,
    /// The source of a fenced code block holds no newline.
    NoNewline,
    /// The byte range of a component is no range of whole characters of the
    /// text.
    BadOffset(Range<usize>),
}

pub enum ComponentErrorView {
    UnexpectedEvent,
    NoClosingTag,
    NoNewline,
    BadOffset { start: int, end: int },
}

impl View for ComponentError {
    type V = ComponentErrorView;

    open spec fn view(&self) -> ComponentErrorView {
        match self {
            ComponentError::UnexpectedEvent => ComponentErrorView::UnexpectedEvent,
            ComponentError::NoClosingTag => ComponentErrorView::NoClosingTag,
            ComponentError::NoNewline => ComponentErrorView::NoNewline,
            ComponentError::BadOffset(range) => ComponentErrorView::BadOffset {
                start: range.start as int,
                end: range.end as int,
            },
        }
    }
}

/// The components closed so far, and the one that is open.
pub struct SplitView {
    pub done: Seq<RangeComponentView>,
    pub current: RangeComponentView,
}

/// The larger of two offsets.
pub open spec fn later(a: int, b: int) -> int {
    if a >= b {
        a
    } else {
        b
    }
}

/// Takes one event in. Literal text is closed where a code block starts, and
/// grows to the end of any other event. A code block gathers its text, and is
/// closed by its end, where empty literal text opens; any other event inside
/// it is `None`.
pub open spec fn absorb(split: SplitView, event: MarkdownEventView) -> Option<SplitView> {
    match split.current {
        RangeComponentView::LiteralText { start, end } => match event.kind {
            EventKindView::StartCodeBlock(kind) => Some(
                SplitView {
                    done: split.done.push(
                        RangeComponentView::LiteralText { start, end: event.start },
                    ),
                    current: RangeComponentView::CodeBlock {
                        kind,
                        start: event.start,
                        end: event.end,
                        body: Seq::empty(),
                    },
                },
            ),
            _ => Some(
                SplitView {
                    done: split.done,
                    current: RangeComponentView::LiteralText { start, end: later(end, event.end) },
                },
            ),
        },
        RangeComponentView::CodeBlock { kind, start, end, body } => match event.kind {
            EventKindView::EndCodeBlock => Some(
                SplitView {
                    done: split.done.push(split.current),
                    current: RangeComponentView::LiteralText { start: event.end, end: event.end },
                },
            ),
            EventKindView::Text(text) => Some(
                SplitView {
                    done: split.done,
                    current: RangeComponentView::CodeBlock { kind, start, end, body: body + text },
                },
            ),
            _ => None,
        },
    }
}

/// The split after the first `k` events, from empty literal text at the start
/// of the text; `None` once an event was not expected.
pub open spec fn split_after(events: Seq<MarkdownEventView>, k: int) -> Option<SplitView>
    decreases k,
{
    if k <= 0 {
        Some(
            SplitView {
                done: Seq::empty(),
                current: RangeComponentView::LiteralText { start: 0, end: 0 },
            },
        )
    } else {
        match split_after(events, k - 1) {
            Some(split) => absorb(split, events[k - 1]),
            None => None,
        }
    }
}

/// The range components that `events` split a text of `len` bytes into. The
/// literal text that is open at the end runs to the end of the text.
pub open spec fn ranges_of(events: Seq<MarkdownEventView>, len: int) -> Result<
    Seq<RangeComponentView>,
    ComponentErrorView,
> {
    match split_after(events, events.len() as int) {
        None => Err(ComponentErrorView::UnexpectedEvent),
        Some(split) => match split.current {
            RangeComponentView::LiteralText { start, .. } => Ok(
                split.done.push(RangeComponentView::LiteralText { start, end: len }),
            ),
            RangeComponentView::CodeBlock { .. } => Err(ComponentErrorView::NoClosingTag),
        },
    }
}

/// The flavor of a code block of `kind` with the source `source`, which ends
/// at the end of the text or not.
pub open spec fn flavor_of(kind: BlockKindView, source: Seq<char>, at_end: bool) -> Result<
    CodeBlockFlavorView,
    ComponentErrorView,
> {
    match kind {
        BlockKindView::Indented => Ok(CodeBlockFlavorView::Indented),
        BlockKindView::Fenced(info_string) => match source.index_of_first('\n') {
            None => Err(ComponentErrorView::NoNewline),
            Some(first) => Ok(
                CodeBlockFlavorView::Fenced {
                    start_line: source.subrange(0, first),
                    end_line: if at_end {
                        None
                    } else {
                        Some(
                            source.subrange(
                                source.index_of_last('\n')->Some_0 + 1,
                                source.len() as int,
                            ),
                        )
                    },
                    info_string,
                },
            ),
        },
    }
}

/// The component that a range component stands for in `text`.
pub open spec fn resolve_of(text: Seq<char>, component: RangeComponentView) -> Result<
    ComponentView,
    ComponentErrorView,
> {
    match component {
        RangeComponentView::LiteralText { start, end } => if is_span(text, start, end) {
            Ok(ComponentView::LiteralText(slice_of(text, start, end)))
        } else {
            Err(ComponentErrorView::BadOffset { start, end })
        },
        RangeComponentView::CodeBlock { kind, start, end, body } => if is_span(text, start, end) {
            let source = slice_of(text, start, end);
            match flavor_of(kind, source, end == byte_len(text)) {
                Ok(flavor) => Ok(ComponentView::CodeBlock { source, flavor, body }),
                Err(error) => Err(error),
            }
        } else {
            Err(ComponentErrorView::BadOffset { start, end })
        },
    }
}

/// The components that the first `k` range components stand for, or the error
/// of the first that stands for none.
pub open spec fn resolve_all(text: Seq<char>, components: Seq<RangeComponentView>, k: int) -> Result<
    Seq<ComponentView>,
    ComponentErrorView,
>
    decreases k,
{
    if k <= 0 {
        Ok(Seq::empty())
    } else {
        match resolve_all(text, components, k - 1) {
            Err(error) => Err(error),
            Ok(resolved) => match resolve_of(text, components[k - 1]) {
                Err(error) => Err(error),
                Ok(component) => Ok(resolved.push(component)),
            },
        }
    }
}

/// The components that `events` split `text` into.
pub open spec fn components_of(text: Seq<char>, events: Seq<MarkdownEventView>) -> Result<
    Seq<ComponentView>,
    ComponentErrorView,
> {
    match ranges_of(events, byte_len(text)) {
        Err(error) => Err(error),
        Ok(ranges) => resolve_all(text, ranges, ranges.len() as int),
    }
}

/// What a call that gives range components returned.
pub open spec fn ranged(result: Result<Vec<RangeComponent>, ComponentError>) -> Result<
    Seq<RangeComponentView>,
    ComponentErrorView,
> {
    match result {
        Ok(components) => Ok(range_views(components@)),
        Err(error) => Err(error@),
    }
}

/// What a call of `resolve_component` returned.
pub open spec fn resolved(result: Result<Component, ComponentError>) -> Result<
    ComponentView,
    ComponentErrorView,
> {
    match result {
        Ok(component) => Ok(component@),
        Err(error) => Err(error@),
    }
}

/// What a call that gives components returned.
pub open spec fn split(result: Result<Vec<Component>, ComponentError>) -> Result<
    Seq<ComponentView>,
    ComponentErrorView,
> {
    match result {
        Ok(components) => Ok(component_views(components@)),
        Err(error) => Err(error@),
    }
}

/// Splits a text of `len` bytes into range components, as `events` say.
pub fn to_range_components(events: Vec<MarkdownEvent>, len: usize) -> (result: Result<
    Vec<RangeComponent>,
    ComponentError,
>)
    ensures
        ranged(result) == ranges_of(event_views(events@), len as int),
{
    let mut done: Vec<RangeComponent> = Vec::new();
    let mut current = RangeComponent::LiteralText(0..0);
    let ghost views = event_views(events@);
    proof {
        assert(range_views(done@) =~= Seq::<RangeComponentView>::empty());
    }
    for event in it: events.into_iter()
        invariant
            it.seq() == events@,
            views == event_views(events@),
            split_after(views, it.index() as int) == Some(
                SplitView { done: range_views(done@), current: current@ },
            ),
    {
        let ghost before = range_views(done@);
        assert(views[it.index() as int] == event@);
        let MarkdownEvent { kind, offset } = event;
        match current {
            RangeComponent::LiteralText(range) => match kind {
                EventKind::StartCodeBlock(block) => {
                    let closed = RangeComponent::LiteralText(range.start..offset.start);
                    assert(range_views(done@.push(closed)) =~= before.push(closed@));
                    done.push(closed);
                    current = RangeComponent::CodeBlock(block, offset, String::new());
                },
                _ => {
                    let end = if range.end >= offset.end {
                        range.end
                    } else {
                        offset.end
                    };
                    current = RangeComponent::LiteralText(range.start..end);
                },
            },
            RangeComponent::CodeBlock(block, range, body) => match kind {
                EventKind::EndCodeBlock => {
                    let closed = RangeComponent::CodeBlock(block, range, body);
                    assert(range_views(done@.push(closed)) =~= before.push(closed@));
                    done.push(closed);
                    current = RangeComponent::LiteralText(offset.end..offset.end);
                },
                EventKind::Text(text) => {
                    let mut body = body;
                    body.append(text.as_str());
                    current = RangeComponent::CodeBlock(block, range, body);
                },
                _ => {
                    proof {
                        lemma_split_stays_none(views, it.index() + 1, views.len() as int);
                    }
                    return Err(ComponentError::UnexpectedEvent);
                },
            },
        }
    }
    match current {
        RangeComponent::LiteralText(range) => {
            let last = RangeComponent::LiteralText(range.start..len);
            assert(range_views(done@.push(last)) =~= range_views(done@).push(last@));
            done.push(last);
            Ok(done)
        },
        RangeComponent::CodeBlock(_, _, _) => Err(ComponentError::NoClosingTag),
    }
}

/// Once an event was not expected, the split stays `None`.
proof fn lemma_split_stays_none(events: Seq<MarkdownEventView>, k: int, upto: int)
    requires
        0 <= k <= upto,
        split_after(events, k) is None,
    ensures
        split_after(events, upto) is None,
    decreases upto - k,
{
    if k < upto {
        lemma_split_stays_none(events, k, upto - 1);
    }
}

/// Cuts the component that `component` stands for out of `input`.
pub fn resolve_component<'a>(component: RangeComponent, input: &'a str) -> (result: Result<
    Component<'a>,
    ComponentError,
>)
    ensures
        resolved(result) == resolve_of(input@, component@),
{
    match component {
        RangeComponent::LiteralText(range) => {
            if is_span_of(input, range.start, range.end) {
                Ok(Component::LiteralText(slice(input, range.start, range.end)))
            } else {
                Err(ComponentError::BadOffset(range))
            }
        },
        RangeComponent::CodeBlock(kind, offset, body) => {
            if !is_span_of(input, offset.start, offset.end) {
                return Err(ComponentError::BadOffset(offset));
            }
            let source = slice(input, offset.start, offset.end);
            let at_end = offset.end == byte_length(input);
            match fence_lines(kind, source, at_end) {
                Ok(flavor) => Ok(Component::CodeBlock(source, flavor, body)),
                Err(error) => Err(error),
            }
        },
    }
}

/// The flavor of a code block of `kind` with the source `source`: of a fenced
/// one, its first line, and its last line unless the block ends the text.
pub fn fence_lines<'a>(kind: BlockKind, source: &'a str, at_end: bool) -> (result: Result<
    CodeBlockFlavor<'a>,
    ComponentError,
>)
    ensures
        match flavor_of(kind@, source@, at_end) {
            Ok(flavor) => result matches Ok(found) && found@ == flavor,
            Err(error) => result matches Err(found) && found@ == error,
        },
{
    match kind {
        BlockKind::Indented => Ok(CodeBlockFlavor::Indented),
        BlockKind::Fenced(info_string) => {
            let ghost text = source@;
            proof {
                text.index_of_first_ensures('\n');
                text.index_of_last_ensures('\n');
                lemma_byte_offset_ends(text);
                lemma_offset_is_boundary(text, 0);
                lemma_offset_is_boundary(text, text.len() as int);
            }
            match find_char(source, '\n') {
                None => Err(ComponentError::NoNewline),
                Some(end_of_first_line) => {
                    let ghost first = text.index_of_first('\n')->Some_0;
                    proof {
                        lemma_offset_is_boundary(text, first);
                        lemma_slice_of_offsets(text, 0, first);
                    }
                    let start_line = slice(source, 0, end_of_first_line);
                    let end_line = if at_end {
                        None
                    } else {
                        match rfind_char(source, '\n') {
                            None => None,
                            Some(end_of_last_line) => {
                                let ghost last = text.index_of_last('\n')->Some_0;
                                proof {
                                    lemma_ascii_width('\n');
                                    lemma_byte_offset_step(text, last);
                                    lemma_offset_is_boundary(text, last + 1);
                                    lemma_slice_of_offsets(text, last + 1, text.len() as int);
                                }
                                let total = byte_length(source);
                                Some(slice(source, end_of_last_line + 1, total))
                            },
                        }
                    };
                    Ok(CodeBlockFlavor::Fenced { start_line, end_line, info_string })
                },
            }
        },
    }
}

/// Splits `input` into its components, as `events` say.
pub fn components_from<'a>(input: &'a str, events: Vec<MarkdownEvent>) -> (result: Result<
    Vec<Component<'a>>,
    ComponentError,
>)
    ensures
        split(result) == components_of(input@, event_views(events@)),
{
    let ranges = match to_range_components(events, byte_length(input)) {
        Ok(ranges) => ranges,
        Err(error) => {
            return Err(error);
        },
    };
    let mut components: Vec<Component<'a>> = Vec::new();
    let ghost views = range_views(ranges@);
    proof {
        assert(component_views(components@) =~= Seq::<ComponentView>::empty());
    }
    for component in it: ranges.into_iter()
        invariant
            it.seq() == ranges@,
            views == range_views(ranges@),
            ranges_of(event_views(events@), byte_len(input@)) == Ok::<_, ComponentErrorView>(views),
            resolve_all(input@, views, it.index() as int) == Ok::<_, ComponentErrorView>(
                component_views(components@),
            ),
    {
        assert(views[it.index() as int] == component@);
        match resolve_component(component, input) {
            Ok(found) => {
                assert(component_views(components@.push(found)) =~= component_views(
                    components@,
                ).push(found@));
                components.push(found);
            },
            Err(error) => {
                proof {
                    let here = it.index() + 1;
                    assert(resolve_all(input@, views, here) == Err::<Seq<ComponentView>, _>(
                        error@,
                    ));
                    lemma_resolve_stays_err(input@, views, here, views.len() as int);
                }
                return Err(error);
            },
        }
    }
    Ok(components)
}

/// Once a range component stood for none, the error stays.
proof fn lemma_resolve_stays_err(
    text: Seq<char>,
    components: Seq<RangeComponentView>,
    k: int,
    upto: int,
)
    requires
        0 <= k <= upto,
        resolve_all(text, components, k) is Err,
    ensures
        resolve_all(text, components, upto) == resolve_all(text, components, k),
    decreases upto - k,
{
    if k < upto {
        lemma_resolve_stays_err(text, components, k, upto - 1);
    }
}

impl RangeComponentView {
    /// The byte offset at which the component starts.
    pub open spec fn start(self) -> int {
        match self {
            RangeComponentView::LiteralText { start, .. } => start,
            RangeComponentView::CodeBlock { start, .. } => start,
        }
    }

    /// The byte offset at which the component ends.
    pub open spec fn end(self) -> int {
        match self {
            RangeComponentView::LiteralText { end, .. } => end,
            RangeComponentView::CodeBlock { end, .. } => end,
        }
    }
}

/// Literal text and code blocks take turns, literal text first, and each code
/// block starts where the literal text before it ends.
pub open spec fn alternating(components: Seq<RangeComponentView>) -> bool {
    &&& forall|i: int|
        0 <= i < components.len() ==> ((#[trigger] components[i]) is LiteralText <==> i % 2 == 0)
    &&& forall|i: int|
        0 < i < components.len() && (#[trigger] components[i]) is CodeBlock ==> components[i
            - 1].end() == components[i].start()
    &&& components.len() > 0 ==> components[0].start() == 0
}

/// The components that are closed and the one that is open take turns too.
pub open spec fn split_alternates(split: SplitView) -> bool {
    let all = split.done.push(split.current);
    &&& alternating(split.done)
    &&& split.current is LiteralText <==> split.done.len() % 2 == 0
    &&& split.current is CodeBlock ==> split.done.len() > 0 && split.done.last().end()
        == split.current.start()
    &&& all[0].start() == 0
}

/// Whatever the events, the components of a split take turns.
pub proof fn lemma_split_alternates(events: Seq<MarkdownEventView>, k: int)
    requires
        0 <= k <= events.len(),
    ensures
        split_after(events, k) matches Some(split) ==> split_alternates(split),
    decreases k,
{
    if k > 0 {
        lemma_split_alternates(events, k - 1);
    }
}

/// Whatever the events, the range components that they split a text into
/// are literal text and code blocks in turn: they start with literal text
/// from the start of the text and end with literal text up to its end, and
/// each code block starts where the literal text before it ends.
pub proof fn lemma_ranges_alternate(events: Seq<MarkdownEventView>, len: int)
    ensures
        ranges_of(events, len) matches Ok(ranges) ==> {
            &&& alternating(ranges)
            &&& ranges.len() % 2 == 1
            &&& ranges[0].start() == 0
            &&& ranges.last() is LiteralText
            &&& ranges.last().end() == len
        },
{
    lemma_split_alternates(events, events.len() as int);
}

/// The events that the markdown parser gives for a text, with all of its
/// extensions off: what `pulldown_cmark::Parser::new_ext` yields through
/// `into_offset_iter`, each event reduced to what this library reads of it.
pub uninterp spec fn markdown_events_of(input: Seq<char>) -> Seq<MarkdownEventView>;

/// `pulldown_cmark::Parser::new_ext` with `Options::empty()`, then
/// `into_offset_iter`: the events and their offsets are a function of the
/// text alone, named `markdown_events_of` here. Nothing is claimed of the
/// offsets.
#[verifier::external_body]
fn markdown_events(input: &str) -> (events: Vec<MarkdownEvent>)
    ensures
        event_views(events@) == markdown_events_of(input@),
{
    let mut events = Vec::new();
    let options = pulldown_cmark::Options::empty();
    for (event, offset) in pulldown_cmark::Parser::new_ext(input, options).into_offset_iter() {
        let kind = match event {
            pulldown_cmark::Event::Start(pulldown_cmark::Tag::CodeBlock(kind)) => match kind {
                pulldown_cmark::CodeBlockKind::Indented => EventKind::StartCodeBlock(BlockKind::Indented),
                pulldown_cmark::CodeBlockKind::Fenced(info) => EventKind::StartCodeBlock(BlockKind::Fenced(info.into_string())),
            },
            pulldown_cmark::Event::End(pulldown_cmark::Tag::CodeBlock(_)) => EventKind::EndCodeBlock,
            pulldown_cmark::Event::Text(text) => EventKind::Text(text.into_string()),
            _ => EventKind::Other,
        };
        events.push(MarkdownEvent { kind, offset });
    }
    events
}

/// Splits `input` into its code blocks and the literal text between them.
pub fn to_components<'a>(input: &'a str) -> (result: Result<Vec<Component<'a>>, ComponentError>)
    ensures
        split(result) == components_of(input@, markdown_events_of(input@)),
{
    let events = markdown_events(input);
    components_from(input, events)
}

} // verus!
