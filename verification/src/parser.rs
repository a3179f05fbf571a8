//! The tree constructor.
//!
//! It pulls tokens from the tokenizer and dispatches each on the current
//! insertion mode. A dispatch either uses the token up, or switches the mode
//! and looks at the same token again, or ends the parse. New nodes are attached
//! below the current node, the top of the stack of open elements.

use vstd::prelude::*;
use crate::dom::{
    attributes_view, child_ok, clone_attributes, create_element, create_text, data_element_kind,
    dom_append, dom_new, dom_push_char, last_of, lemma_append_frame, lemma_append_keeps_tree,
    lemma_append_len,
    lemma_push_char_frame, lemma_push_char_keeps_tree, tree_wf, Attribute, AttributeView, DomView,
    ElementKind, NodeData, NodeKind, Window,
};
use crate::text::{is_whitespace, spec_is_whitespace};
use crate::token::{
    lemma_next_uses_fuel, lex_enter_rawtext, lex_fuel, lex_next, token_view, HtmlToken,
    HtmlTokenizer, LexView, TokenView,
};

verus! {

/// The insertion modes.
#[derive(Debug, Copy, Clone, PartialEq, Eq, Structural)]
pub enum InsertionMode {
    Initial,
    BeforeHtml,
    BeforeHead,
    InHead,
    AfterHead,
    InBody,
    Text,
    AfterBody,
    AfterAfterBody,
}

/// What becomes of the token after a dispatch.
#[derive(Debug, Copy, Clone, PartialEq, Eq, Structural)]
pub enum Outcome {
    /// The token is used up; the next one is pulled.
    Advance,
    /// The mode changed and the same token is dispatched again.
    Reprocess,
    /// The parse is over.
    Stop,
}

/// The parser, as plain values.
pub struct ParserView {
    pub dom: DomView,
    pub stack: Seq<usize>,
    pub mode: InsertionMode,
    pub original_mode: InsertionMode,
    pub lex: LexView,
}

/// A parser that has not looked at any token yet.
pub open spec fn parser_start(lex: LexView) -> ParserView {
    ParserView {
        dom: dom_new(),
        stack: Seq::empty(),
        mode: InsertionMode::Initial,
        original_mode: InsertionMode::Initial,
        lex,
    }
}

/// The element kind of node `id`; `None` if it is not an element.
pub open spec fn kind_at(dom: DomView, id: usize) -> Option<ElementKind> {
    data_element_kind(dom[id as int].data)
}

/// The node below which new elements are attached: the top of the stack, or
/// the document while no element is open.
pub open spec fn current_node(p: ParserView) -> usize {
    if p.stack.len() > 0 {
        p.stack[p.stack.len() - 1]
    } else {
        0
    }
}

/// A new element becomes the last child of the current node and the new top
/// of the stack.
pub open spec fn insert_element(p: ParserView, kind: ElementKind, attributes: Seq<AttributeView>)
    -> ParserView {
    ParserView {
        dom: dom_append(p.dom, current_node(p), NodeData::Element { kind, attributes }),
        stack: p.stack.push(p.dom.len() as usize),
        ..p
    }
}

/// The text node that takes the next character: the last child of the current
/// node, if that is a text node.
pub open spec fn open_text(p: ParserView) -> Option<usize> {
    match last_of(p.dom[current_node(p) as int].children) {
        Some(last) => if p.dom[last as int].data is Text {
            Some(last)
        } else {
            None
        },
        None => None,
    }
}

/// A character extends the text node that ends the current node's children,
/// or starts a new text node there. Outside any open element it is dropped.
pub open spec fn insert_char(p: ParserView, c: char) -> ParserView {
    if p.stack.len() == 0 {
        p
    } else {
        match open_text(p) {
            Some(last) => ParserView { dom: dom_push_char(p.dom, last, c), ..p },
            None => ParserView {
                dom: dom_append(p.dom, current_node(p), NodeData::Text(seq![c])),
                ..p
            },
        }
    }
}

/// The position of the topmost element of `kind` among the lowest `n` entries
/// of the stack.
pub open spec fn top_index_of(dom: DomView, stack: Seq<usize>, kind: ElementKind, n: nat)
    -> Option<int>
    decreases n,
{
    if n == 0 {
        None
    } else if kind_at(dom, stack[n - 1]) == Some(kind) {
        Some(n - 1)
    } else {
        top_index_of(dom, stack, kind, (n - 1) as nat)
    }
}

/// The stack after everything from the top down to the topmost element of
/// `kind`, that element included, has left. Without such an element the stack
/// stays as it is.
pub open spec fn stack_pop_until(dom: DomView, stack: Seq<usize>, kind: ElementKind) -> Seq<usize> {
    match top_index_of(dom, stack, kind, stack.len()) {
        Some(k) => stack.subrange(0, k),
        None => stack,
    }
}

/// Whether the top of the stack is an element of `kind`.
pub open spec fn stack_top_is(dom: DomView, stack: Seq<usize>, kind: ElementKind) -> bool {
    stack.len() > 0 && kind_at(dom, stack[stack.len() - 1]) == Some(kind)
}

/// The stack without its top, if that is an element of `kind`.
pub open spec fn stack_pop_current(dom: DomView, stack: Seq<usize>, kind: ElementKind) -> Seq<
    usize,
> {
    if stack_top_is(dom, stack, kind) {
        stack.subrange(0, stack.len() - 1)
    } else {
        stack
    }
}

/// Whether an element of `kind` is open.
pub open spec fn stack_contains(dom: DomView, stack: Seq<usize>, kind: ElementKind) -> bool {
    exists|i: int| 0 <= i < stack.len() && kind_at(dom, #[trigger] stack[i]) == Some(kind)
}

/// `top_index_of` finds the topmost element of the kind, and finds none only
/// if there is none.
pub proof fn lemma_top_index_of(dom: DomView, stack: Seq<usize>, kind: ElementKind, n: nat)
    requires
        n <= stack.len(),
    ensures
        match top_index_of(dom, stack, kind, n) {
            Some(k) => {
                &&& 0 <= k < n
                &&& kind_at(dom, stack[k]) == Some(kind)
                &&& forall|j: int| k < j < n ==> kind_at(dom, #[trigger] stack[j]) != Some(kind)
            },
            None => forall|j: int| 0 <= j < n ==> kind_at(dom, #[trigger] stack[j]) != Some(kind),
        },
    decreases n,
{
    if n > 0 && kind_at(dom, stack[n - 1]) != Some(kind) {
        lemma_top_index_of(dom, stack, kind, (n - 1) as nat);
    }
}

/// Popping until a kind that is not open changes nothing, and popping until
/// one that is open leaves none of that kind at or above the place where the
/// topmost one stood.
pub proof fn lemma_pop_until(dom: DomView, stack: Seq<usize>, kind: ElementKind)
    ensures
        !stack_contains(dom, stack, kind) ==> stack_pop_until(dom, stack, kind) == stack,
        stack_contains(dom, stack, kind) ==> stack_pop_until(dom, stack, kind).len() < stack.len(),
        stack_pop_until(dom, stack, kind) == stack.subrange(
            0,
            stack_pop_until(dom, stack, kind).len() as int,
        ),
{
    lemma_top_index_of(dom, stack, kind, stack.len());
    match top_index_of(dom, stack, kind, stack.len()) {
        Some(k) => {
            assert(kind_at(dom, stack[k]) == Some(kind));
        },
        None => {
            assert(stack.subrange(0, stack.len() as int) == stack);
        },
    }
}

/// The element kind that a start tag names, if it names one.
pub open spec fn start_kind(t: TokenView) -> Option<ElementKind> {
    match t {
        TokenView::StartTag { tag, .. } => ElementKind::spec_from_name(tag),
        _ => None,
    }
}

/// The element kind that an end tag names, if it names one.
pub open spec fn end_kind(t: TokenView) -> Option<ElementKind> {
    match t {
        TokenView::EndTag { tag } => ElementKind::spec_from_name(tag),
        _ => None,
    }
}

/// The attributes of a start tag; none for any other token.
pub open spec fn start_attributes(t: TokenView) -> Seq<AttributeView> {
    match t {
        TokenView::StartTag { attributes, .. } => attributes,
        _ => Seq::empty(),
    }
}

/// The name of a tag token; empty for any other token.
pub open spec fn tag_name(t: TokenView) -> Seq<char> {
    match t {
        TokenView::StartTag { tag, .. } => tag,
        TokenView::EndTag { tag } => tag,
        _ => Seq::empty(),
    }
}

pub open spec fn is_whitespace_char(t: TokenView) -> bool {
    t matches TokenView::Char(c) && spec_is_whitespace(c)
}

/// A parser state together with what becomes of the token.
pub struct Dispatched {
    pub parser: ParserView,
    pub outcome: Outcome,
}

pub open spec fn advance(p: ParserView) -> Dispatched {
    Dispatched { parser: p, outcome: Outcome::Advance }
}

pub open spec fn reprocess(p: ParserView) -> Dispatched {
    Dispatched { parser: p, outcome: Outcome::Reprocess }
}

pub open spec fn stop(p: ParserView) -> Dispatched {
    Dispatched { parser: p, outcome: Outcome::Stop }
}

pub open spec fn with_mode(p: ParserView, mode: InsertionMode) -> ParserView {
    ParserView { mode, ..p }
}

pub open spec fn with_stack(p: ParserView, stack: Seq<usize>) -> ParserView {
    ParserView { stack, ..p }
}

/// `Initial`: characters are skipped; anything else is looked at again in
/// `BeforeHtml`.
pub open spec fn step_initial(p: ParserView, t: TokenView) -> Dispatched {
    if t is Char {
        advance(p)
    } else {
        reprocess(with_mode(p, InsertionMode::BeforeHtml))
    }
}

/// The rule shared by `BeforeHtml`, `BeforeHead` and `AfterHead`: whitespace
/// is skipped, `Eof` ends the parse, the start tag of `kind` opens that
/// element with its attributes, and anything else opens it without attributes
/// and is looked at again in the mode that follows.
pub open spec fn step_open(p: ParserView, t: TokenView, kind: ElementKind, then: InsertionMode)
    -> Dispatched {
    if is_whitespace_char(t) {
        advance(p)
    } else if t is Eof {
        stop(p)
    } else if start_kind(t) == Some(kind) {
        advance(with_mode(insert_element(p, kind, start_attributes(t)), then))
    } else {
        reprocess(with_mode(insert_element(p, kind, Seq::empty()), then))
    }
}

/// `InHead`.
pub open spec fn step_in_head(p: ParserView, t: TokenView) -> Dispatched {
    if is_whitespace_char(t) {
        advance(p)
    } else if t is Eof {
        stop(p)
    } else if t is StartTag {
        match start_kind(t) {
            Some(kind) => if kind == ElementKind::Style || kind == ElementKind::Script {
                let q = insert_element(p, kind, start_attributes(t));
                advance(
                    ParserView {
                        mode: InsertionMode::Text,
                        original_mode: p.mode,
                        lex: lex_enter_rawtext(p.lex, tag_name(t)),
                        ..q
                    },
                )
            } else {
                reprocess(
                    ParserView {
                        mode: InsertionMode::AfterHead,
                        stack: stack_pop_until(p.dom, p.stack, ElementKind::Head),
                        ..p
                    },
                )
            },
            None => advance(p),
        }
    } else if end_kind(t) == Some(ElementKind::Head) {
        advance(
            ParserView {
                mode: InsertionMode::AfterHead,
                stack: stack_pop_until(p.dom, p.stack, ElementKind::Head),
                ..p
            },
        )
    } else {
        advance(p)
    }
}

/// The element kinds that `InBody` opens and closes by their tags.
pub open spec fn is_flow_kind(kind: ElementKind) -> bool {
    kind == ElementKind::P || kind == ElementKind::H1 || kind == ElementKind::H2 || kind
        == ElementKind::A
}

fn flow_kind(kind: ElementKind) -> (r: bool)
    ensures
        r == is_flow_kind(kind),
{
    match kind {
        ElementKind::P | ElementKind::H1 | ElementKind::H2 | ElementKind::A => true,
        _ => false,
    }
}

/// `InBody`.
pub open spec fn step_in_body(p: ParserView, t: TokenView) -> Dispatched {
    match t {
        TokenView::StartTag { .. } => match start_kind(t) {
            Some(kind) => if is_flow_kind(kind) {
                advance(insert_element(p, kind, start_attributes(t)))
            } else {
                advance(p)
            },
            None => advance(p),
        },
        TokenView::EndTag { .. } => match end_kind(t) {
            Some(kind) => if kind == ElementKind::Body {
                advance(
                    ParserView {
                        mode: InsertionMode::AfterBody,
                        stack: stack_pop_until(p.dom, p.stack, ElementKind::Body),
                        ..p
                    },
                )
            } else if kind == ElementKind::Html {
                if stack_top_is(p.dom, p.stack, ElementKind::Body) {
                    reprocess(
                        ParserView {
                            mode: InsertionMode::AfterBody,
                            stack: stack_pop_current(
                                p.dom,
                                stack_pop_current(p.dom, p.stack, ElementKind::Body),
                                ElementKind::Html,
                            ),
                            ..p
                        },
                    )
                } else {
                    advance(p)
                }
            } else if is_flow_kind(kind) {
                advance(with_stack(p, stack_pop_until(p.dom, p.stack, kind)))
            } else {
                advance(p)
            },
            None => advance(p),
        },
        TokenView::Char(c) => advance(insert_char(p, c)),
        TokenView::Eof => stop(p),
    }
}

/// `Text`: characters are kept, the end tag of the raw element closes it and
/// brings the saved mode back. Anything else brings the saved mode back and is
/// looked at again there.
pub open spec fn step_text(p: ParserView, t: TokenView) -> Dispatched {
    match t {
        TokenView::Char(c) => advance(insert_char(p, c)),
        TokenView::Eof => stop(p),
        _ => if end_kind(t) == Some(ElementKind::Style) {
            advance(
                ParserView {
                    mode: p.original_mode,
                    stack: stack_pop_until(p.dom, p.stack, ElementKind::Style),
                    ..p
                },
            )
        } else if end_kind(t) == Some(ElementKind::Script) {
            advance(
                ParserView {
                    mode: p.original_mode,
                    stack: stack_pop_until(p.dom, p.stack, ElementKind::Script),
                    ..p
                },
            )
        } else {
            reprocess(with_mode(p, p.original_mode))
        },
    }
}

/// `AfterBody`.
pub open spec fn step_after_body(p: ParserView, t: TokenView) -> Dispatched {
    if t is Char {
        advance(p)
    } else if t is Eof {
        stop(p)
    } else if end_kind(t) == Some(ElementKind::Html) {
        advance(with_mode(p, InsertionMode::AfterAfterBody))
    } else {
        reprocess(with_mode(p, InsertionMode::InBody))
    }
}

/// `AfterAfterBody`.
pub open spec fn step_after_after_body(p: ParserView, t: TokenView) -> Dispatched {
    if t is Char {
        advance(p)
    } else if t is Eof {
        stop(p)
    } else {
        reprocess(with_mode(p, InsertionMode::InBody))
    }
}

/// One dispatch of token `t` in the current insertion mode.
pub open spec fn dispatch(p: ParserView, t: TokenView) -> Dispatched {
    match p.mode {
        InsertionMode::Initial => step_initial(p, t),
        InsertionMode::BeforeHtml => step_open(p, t, ElementKind::Html, InsertionMode::BeforeHead),
        InsertionMode::BeforeHead => step_open(p, t, ElementKind::Head, InsertionMode::InHead),
        InsertionMode::InHead => step_in_head(p, t),
        InsertionMode::AfterHead => step_open(p, t, ElementKind::Body, InsertionMode::InBody),
        InsertionMode::InBody => step_in_body(p, t),
        InsertionMode::Text => step_text(p, t),
        InsertionMode::AfterBody => step_after_body(p, t),
        InsertionMode::AfterAfterBody => step_after_after_body(p, t),
    }
}

/// Entry `i` of the stack names an element of the document whose parent is
/// the entry below it; the lowest entry hangs below the document node.
pub open spec fn stack_entry_ok(dom: DomView, stack: Seq<usize>, i: int) -> bool {
    let id = stack[i];
    &&& id < dom.len()
    &&& dom[id as int].data is Element
    &&& dom[id as int].parent == Some(
        if i == 0 {
            0usize
        } else {
            stack[i - 1]
        },
    )
}

/// The document is a tree and the stack of open elements is a path in it that
/// starts below the document node. So no element is open twice.
pub open spec fn links_ok(dom: DomView, stack: Seq<usize>) -> bool {
    &&& tree_wf(dom)
    &&& forall|i: int| 0 <= i < stack.len() ==> #[trigger] stack_entry_ok(dom, stack, i)
}

pub open spec fn is_raw_kind(kind: Option<ElementKind>) -> bool {
    kind == Some(ElementKind::Style) || kind == Some(ElementKind::Script)
}

/// In the modes of the body, `html` is open at the bottom of the stack or not
/// at all, and `body` directly above `html` or not at all.
pub open spec fn body_entry_ok(dom: DomView, stack: Seq<usize>, i: int) -> bool {
    let kind = kind_at(dom, stack[i]);
    &&& kind == Some(ElementKind::Html) ==> i == 0
    &&& kind == Some(ElementKind::Body) ==> i == 1 && kind_at(dom, stack[0]) == Some(
        ElementKind::Html,
    )
}

/// What is open in each insertion mode.
pub open spec fn stack_shape(dom: DomView, stack: Seq<usize>, mode: InsertionMode) -> bool {
    match mode {
        InsertionMode::Initial | InsertionMode::BeforeHtml => stack.len() == 0,
        InsertionMode::BeforeHead | InsertionMode::AfterHead => {
            &&& stack.len() == 1
            &&& kind_at(dom, stack[0]) == Some(ElementKind::Html)
        },
        InsertionMode::InHead | InsertionMode::Text => {
            &&& stack.len() >= 2
            &&& kind_at(dom, stack[0]) == Some(ElementKind::Html)
            &&& kind_at(dom, stack[1]) == Some(ElementKind::Head)
            &&& forall|i: int| 2 <= i < stack.len() ==> is_raw_kind(kind_at(dom, #[trigger] stack[i]))
        },
        InsertionMode::InBody | InsertionMode::AfterBody | InsertionMode::AfterAfterBody => {
            forall|i: int| 0 <= i < stack.len() ==> #[trigger] body_entry_ok(dom, stack, i)
        },
    }
}

/// `Text` is entered from `InHead` only, so that is the mode it goes back to.
pub open spec fn mode_ok(p: ParserView) -> bool {
    p.mode is Text ==> p.original_mode is InHead
}

/// The invariant of the parser.
pub open spec fn parser_wf(p: ParserView) -> bool {
    &&& links_ok(p.dom, p.stack)
    &&& stack_shape(p.dom, p.stack, p.mode)
    &&& mode_ok(p)
}

/// Opening an element keeps the stack a path in the tree, and changes the
/// kind of no node that was there before.
pub proof fn lemma_insert_element(p: ParserView, kind: ElementKind, attributes: Seq<AttributeView>)
    requires
        links_ok(p.dom, p.stack),
        p.dom.len() < usize::MAX,
    ensures
        links_ok(insert_element(p, kind, attributes).dom, insert_element(p, kind, attributes).stack),
        insert_element(p, kind, attributes).dom.len() == p.dom.len() + 1,
        kind_at(insert_element(p, kind, attributes).dom, p.dom.len() as usize) == Some(kind),
        forall|id: usize|
            id < p.dom.len() ==> #[trigger] kind_at(insert_element(p, kind, attributes).dom, id)
                == kind_at(p.dom, id),
{
    let q = insert_element(p, kind, attributes);
    let cur = current_node(p);
    if p.stack.len() > 0 {
        assert(stack_entry_ok(p.dom, p.stack, p.stack.len() - 1));
    }
    let data = NodeData::Element { kind, attributes };
    lemma_append_keeps_tree(p.dom, cur, data);
    lemma_append_frame(p.dom, cur, data);
    assert forall|i: int| 0 <= i < q.stack.len() implies #[trigger] stack_entry_ok(
        q.dom,
        q.stack,
        i,
    ) by {
        if i < p.stack.len() {
            assert(stack_entry_ok(p.dom, p.stack, i));
            assert(q.dom[p.stack[i] as int].data == p.dom[p.stack[i] as int].data);
        } else {
            assert(q.stack[i] == p.dom.len() as usize);
        }
    }
    assert forall|id: usize| id < p.dom.len() implies #[trigger] kind_at(q.dom, id) == kind_at(
        p.dom,
        id,
    ) by {
        assert(q.dom[id as int].data == p.dom[id as int].data);
    }
}

/// Taking in a character keeps the stack a path in the tree, leaves the stack
/// as it is, and changes the kind of no node that was there before.
pub proof fn lemma_insert_char(p: ParserView, c: char)
    requires
        links_ok(p.dom, p.stack),
        insert_char(p, c).dom.len() <= usize::MAX,
    ensures
        links_ok(insert_char(p, c).dom, p.stack),
        insert_char(p, c).stack == p.stack,
        p.dom.len() <= insert_char(p, c).dom.len() <= p.dom.len() + 1,
        forall|id: usize|
            id < p.dom.len() ==> #[trigger] kind_at(insert_char(p, c).dom, id) == kind_at(
                p.dom,
                id,
            ),
{
    let q = insert_char(p, c);
    if p.stack.len() > 0 {
        let cur = current_node(p);
        assert(stack_entry_ok(p.dom, p.stack, p.stack.len() - 1));
        let kids = p.dom[cur as int].children;
        match open_text(p) {
            Some(last) => {
                assert(child_ok(p.dom, cur as int, kids.len() - 1));
                lemma_push_char_keeps_tree(p.dom, last, c);
                lemma_push_char_frame(p.dom, last, c);
                assert forall|id: usize| id < p.dom.len() implies #[trigger] kind_at(q.dom, id)
                    == kind_at(p.dom, id) by {
                    if id != last {
                        assert(q.dom[id as int].data == p.dom[id as int].data);
                    }
                }
                assert forall|i: int| 0 <= i < q.stack.len() implies #[trigger] stack_entry_ok(
                    q.dom,
                    q.stack,
                    i,
                ) by {
                    assert(stack_entry_ok(p.dom, p.stack, i));
                    assert(kind_at(q.dom, p.stack[i]) == kind_at(p.dom, p.stack[i]));
                    assert(q.dom[p.stack[i] as int].parent == p.dom[p.stack[i] as int].parent);
                }
            },
            None => {
                let data = NodeData::Text(seq![c]);
                lemma_append_len(p.dom, cur, data);
                lemma_append_keeps_tree(p.dom, cur, data);
                lemma_append_frame(p.dom, cur, data);
                assert forall|id: usize| id < p.dom.len() implies #[trigger] kind_at(q.dom, id)
                    == kind_at(p.dom, id) by {
                    assert(q.dom[id as int].data == p.dom[id as int].data);
                }
                assert forall|i: int| 0 <= i < q.stack.len() implies #[trigger] stack_entry_ok(
                    q.dom,
                    q.stack,
                    i,
                ) by {
                    assert(stack_entry_ok(p.dom, p.stack, i));
                    assert(q.dom[p.stack[i] as int].data == p.dom[p.stack[i] as int].data);
                }
            },
        }
    }
}

/// A stack cut down to its lowest `k` entries is still a path in the tree.
pub proof fn lemma_cut_stack(p: ParserView, k: int)
    requires
        links_ok(p.dom, p.stack),
        0 <= k <= p.stack.len(),
    ensures
        links_ok(p.dom, p.stack.subrange(0, k)),
{
    let cut = p.stack.subrange(0, k);
    assert forall|i: int| 0 <= i < cut.len() implies #[trigger] stack_entry_ok(p.dom, cut, i) by {
        assert(stack_entry_ok(p.dom, p.stack, i));
    }
}

/// In `InHead` and `Text`, popping until `head` leaves `html` alone on the
/// stack, and popping until a raw element leaves `html` and `head` in place.
pub proof fn lemma_pop_in_head(p: ParserView, kind: ElementKind)
    requires
        links_ok(p.dom, p.stack),
        stack_shape(p.dom, p.stack, p.mode),
        p.mode is InHead || p.mode is Text,
        kind == ElementKind::Head || kind == ElementKind::Style || kind == ElementKind::Script,
    ensures
        links_ok(p.dom, stack_pop_until(p.dom, p.stack, kind)),
        kind == ElementKind::Head ==> stack_pop_until(p.dom, p.stack, kind) == p.stack.subrange(
            0,
            1,
        ),
        kind != ElementKind::Head ==> stack_pop_until(p.dom, p.stack, kind).len() >= 2,
        stack_pop_until(p.dom, p.stack, kind).len() <= p.stack.len(),
        stack_pop_until(p.dom, p.stack, kind) == p.stack.subrange(
            0,
            stack_pop_until(p.dom, p.stack, kind).len() as int,
        ),
{
    lemma_top_index_of(p.dom, p.stack, kind, p.stack.len());
    lemma_pop_until(p.dom, p.stack, kind);
    lemma_cut_stack(p, stack_pop_until(p.dom, p.stack, kind).len() as int);
    match top_index_of(p.dom, p.stack, kind, p.stack.len()) {
        Some(k) => {
            if k >= 2 {
                assert(is_raw_kind(kind_at(p.dom, p.stack[k])));
            }
        },
        None => {
            assert(kind_at(p.dom, p.stack[1]) == Some(ElementKind::Head));
        },
    }
}

/// In the modes of the body, a stack cut down to its lowest entries keeps its
/// shape.
pub proof fn lemma_cut_in_body(p: ParserView, k: int)
    requires
        links_ok(p.dom, p.stack),
        stack_shape(p.dom, p.stack, p.mode),
        p.mode is InBody || p.mode is AfterBody || p.mode is AfterAfterBody,
        0 <= k <= p.stack.len(),
    ensures
        links_ok(p.dom, p.stack.subrange(0, k)),
        stack_shape(p.dom, p.stack.subrange(0, k), p.mode),
{
    lemma_cut_stack(p, k);
    let cut = p.stack.subrange(0, k);
    assert forall|i: int| 0 <= i < cut.len() implies #[trigger] body_entry_ok(p.dom, cut, i) by {
        assert(body_entry_ok(p.dom, p.stack, i));
        assert(cut[i] == p.stack[i]);
        assert(cut[0] == p.stack[0]);
    }
}

/// The rule that opens `html`, `head` or `body` keeps the invariant.
pub proof fn lemma_step_open_wf(p: ParserView, t: TokenView)
    requires
        parser_wf(p),
        p.mode is BeforeHtml || p.mode is BeforeHead || p.mode is AfterHead,
        dispatch(p, t).parser.dom.len() <= usize::MAX,
    ensures
        parser_wf(dispatch(p, t).parser),
{
    let kind = match p.mode {
        InsertionMode::BeforeHtml => ElementKind::Html,
        InsertionMode::BeforeHead => ElementKind::Head,
        _ => ElementKind::Body,
    };
    let q = dispatch(p, t).parser;
    if is_whitespace_char(t) || t is Eof {
    } else {
        let attributes = if start_kind(t) == Some(kind) {
            start_attributes(t)
        } else {
            Seq::empty()
        };
        if p.stack.len() > 0 {
            assert(stack_entry_ok(p.dom, p.stack, p.stack.len() - 1));
        }
        lemma_append_len(
            p.dom,
            current_node(p),
            NodeData::Element { kind, attributes },
        );
        lemma_insert_element(p, kind, attributes);
        let r = insert_element(p, kind, attributes);
        assert(q.dom == r.dom && q.stack == r.stack);
        assert forall|i: int| 0 <= i < p.stack.len() implies kind_at(q.dom, q.stack[i]) == kind_at(
            p.dom,
            p.stack[i],
        ) by {
            assert(stack_entry_ok(p.dom, p.stack, i));
        }
        if p.mode is AfterHead {
            assert forall|i: int| 0 <= i < q.stack.len() implies #[trigger] body_entry_ok(
                q.dom,
                q.stack,
                i,
            ) by {
                if i == 0 {
                    assert(kind_at(q.dom, q.stack[0]) == kind_at(p.dom, p.stack[0]));
                }
            }
        } else if p.mode is BeforeHead {
            assert(kind_at(q.dom, q.stack[0]) == kind_at(p.dom, p.stack[0]));
        }
        assert forall|i: int| 0 <= i < q.stack.len() implies #[trigger] stack_entry_ok(
            q.dom,
            q.stack,
            i,
        ) by {
            assert(stack_entry_ok(r.dom, r.stack, i));
        }
    }
}

/// `InHead` keeps the invariant.
pub proof fn lemma_step_in_head_wf(p: ParserView, t: TokenView)
    requires
        parser_wf(p),
        p.mode is InHead,
        dispatch(p, t).parser.dom.len() <= usize::MAX,
    ensures
        parser_wf(dispatch(p, t).parser),
{
    let q = dispatch(p, t).parser;
    lemma_pop_in_head(p, ElementKind::Head);
    if is_whitespace_char(t) || t is Eof {
    } else if t is StartTag {
        match start_kind(t) {
            Some(kind) => {
                if kind == ElementKind::Style || kind == ElementKind::Script {
                    assert(stack_entry_ok(p.dom, p.stack, p.stack.len() - 1));
                    lemma_append_len(
                        p.dom,
                        current_node(p),
                        NodeData::Element { kind, attributes: start_attributes(t) },
                    );
                    lemma_insert_element(p, kind, start_attributes(t));
                    let r = insert_element(p, kind, start_attributes(t));
                    assert(q.dom == r.dom && q.stack == r.stack);
                    assert forall|i: int| 0 <= i < p.stack.len() implies kind_at(q.dom, q.stack[i])
                        == kind_at(p.dom, p.stack[i]) by {
                        assert(stack_entry_ok(p.dom, p.stack, i));
                    }
                    assert forall|i: int| 0 <= i < q.stack.len() implies #[trigger] stack_entry_ok(
                        q.dom,
                        q.stack,
                        i,
                    ) by {
                        assert(stack_entry_ok(r.dom, r.stack, i));
                    }
                    assert forall|i: int| 2 <= i < q.stack.len() implies is_raw_kind(
                        kind_at(q.dom, #[trigger] q.stack[i]),
                    ) by {
                        if i < p.stack.len() {
                            assert(is_raw_kind(kind_at(p.dom, p.stack[i])));
                        }
                    }
                } else {
                    assert(q.stack == p.stack.subrange(0, 1));
                }
            },
            None => {},
        }
    } else if end_kind(t) == Some(ElementKind::Head) {
        assert(q.stack == p.stack.subrange(0, 1));
    }
}

/// `Text` keeps the invariant.
pub proof fn lemma_step_text_wf(p: ParserView, t: TokenView)
    requires
        parser_wf(p),
        p.mode is Text,
        dispatch(p, t).parser.dom.len() <= usize::MAX,
    ensures
        parser_wf(dispatch(p, t).parser),
{
    let q = dispatch(p, t).parser;
    match t {
        TokenView::Char(c) => {
            lemma_insert_char(p, c);
            assert forall|i: int| 0 <= i < p.stack.len() implies kind_at(q.dom, q.stack[i])
                == kind_at(p.dom, p.stack[i]) by {
                assert(stack_entry_ok(p.dom, p.stack, i));
            }
            assert forall|i: int| 2 <= i < q.stack.len() implies is_raw_kind(
                kind_at(q.dom, #[trigger] q.stack[i]),
            ) by {
                assert(is_raw_kind(kind_at(p.dom, p.stack[i])));
            }
        },
        TokenView::Eof => {},
        _ => {
            let kind = if end_kind(t) == Some(ElementKind::Style) {
                ElementKind::Style
            } else {
                ElementKind::Script
            };
            lemma_pop_in_head(p, kind);
            if end_kind(t) == Some(kind) {
                let n = stack_pop_until(p.dom, p.stack, kind).len() as int;
                assert(q.stack == p.stack.subrange(0, n));
                assert forall|i: int| 2 <= i < q.stack.len() implies is_raw_kind(
                    kind_at(q.dom, #[trigger] q.stack[i]),
                ) by {
                    assert(is_raw_kind(kind_at(p.dom, p.stack[i])));
                }
            }
        },
    }
}

/// `InBody` keeps the invariant, and when it closes `html` both `body` and
/// `html` leave the stack.
pub proof fn lemma_step_in_body_wf(p: ParserView, t: TokenView)
    requires
        parser_wf(p),
        p.mode is InBody,
        dispatch(p, t).parser.dom.len() <= usize::MAX,
    ensures
        parser_wf(dispatch(p, t).parser),
        end_kind(t) == Some(ElementKind::Html) && stack_top_is(p.dom, p.stack, ElementKind::Body)
            ==> p.stack.len() == 2 && kind_at(p.dom, p.stack[0]) == Some(ElementKind::Html)
            && dispatch(p, t).parser.stack.len() == 0,
{
    let q = dispatch(p, t).parser;
    match t {
        TokenView::StartTag { .. } => {
            match start_kind(t) {
                Some(kind) => {
                    if is_flow_kind(kind) {
                        if p.stack.len() > 0 {
                            assert(stack_entry_ok(p.dom, p.stack, p.stack.len() - 1));
                        }
                        lemma_append_len(
                            p.dom,
                            current_node(p),
                            NodeData::Element { kind, attributes: start_attributes(t) },
                        );
                        lemma_insert_element(p, kind, start_attributes(t));
                        assert forall|i: int| 0 <= i < p.stack.len() implies kind_at(
                            q.dom,
                            q.stack[i],
                        ) == kind_at(p.dom, p.stack[i]) by {
                            assert(stack_entry_ok(p.dom, p.stack, i));
                        }
                        assert forall|i: int| 0 <= i < q.stack.len() implies #[trigger] body_entry_ok(
                            q.dom,
                            q.stack,
                            i,
                        ) by {
                            if i < p.stack.len() {
                                assert(body_entry_ok(p.dom, p.stack, i));
                                if p.stack.len() > 0 {
                                    assert(kind_at(q.dom, q.stack[0]) == kind_at(p.dom, p.stack[0]));
                                }
                            }
                        }
                    }
                },
                None => {},
            }
        },
        TokenView::EndTag { .. } => {
            match end_kind(t) {
                Some(kind) => {
                    if kind == ElementKind::Html {
                        if stack_top_is(p.dom, p.stack, ElementKind::Body) {
                            assert(body_entry_ok(p.dom, p.stack, p.stack.len() - 1));
                            let s1 = stack_pop_current(p.dom, p.stack, ElementKind::Body);
                            assert(s1 == p.stack.subrange(0, 1));
                            assert(s1[0] == p.stack[0]);
                            assert(stack_top_is(p.dom, s1, ElementKind::Html));
                            assert(q.stack == s1.subrange(0, 0));
                            assert(q.stack == p.stack.subrange(0, 0));
                            lemma_cut_in_body(p, 0);
                        }
                    } else if kind == ElementKind::Body || is_flow_kind(kind) {
                        lemma_pop_until(p.dom, p.stack, kind);
                        let n = stack_pop_until(p.dom, p.stack, kind).len() as int;
                        lemma_cut_in_body(p, n);
                    }
                },
                None => {},
            }
        },
        TokenView::Char(c) => {
            lemma_insert_char(p, c);
            assert forall|i: int| 0 <= i < q.stack.len() implies #[trigger] body_entry_ok(
                q.dom,
                q.stack,
                i,
            ) by {
                assert(body_entry_ok(p.dom, p.stack, i));
                assert(stack_entry_ok(p.dom, p.stack, i));
                assert(stack_entry_ok(p.dom, p.stack, 0));
            }
        },
        TokenView::Eof => {},
    }
}

/// Every dispatch keeps the invariant of the parser, as long as the document
/// it leaves behind fits in memory.
pub proof fn lemma_dispatch_wf(p: ParserView, t: TokenView)
    requires
        parser_wf(p),
        dispatch(p, t).parser.dom.len() <= usize::MAX,
    ensures
        parser_wf(dispatch(p, t).parser),
{
    match p.mode {
        InsertionMode::Initial => {},
        InsertionMode::BeforeHtml | InsertionMode::BeforeHead | InsertionMode::AfterHead => {
            lemma_step_open_wf(p, t);
        },
        InsertionMode::InHead => {
            lemma_step_in_head_wf(p, t);
        },
        InsertionMode::InBody => {
            lemma_step_in_body_wf(p, t);
        },
        InsertionMode::Text => {
            lemma_step_text_wf(p, t);
        },
        InsertionMode::AfterBody | InsertionMode::AfterAfterBody => {
            let q = dispatch(p, t).parser;
            assert forall|i: int| 0 <= i < q.stack.len() implies #[trigger] body_entry_ok(
                q.dom,
                q.stack,
                i,
            ) by {
                assert(body_entry_ok(p.dom, p.stack, i));
            }
        },
    }
}

/// How many more times a token can be looked at again, at most, before it is
/// used up or ends the parse.
pub open spec fn rank(mode: InsertionMode, t: Option<TokenView>) -> nat {
    match t {
        None => 0,
        Some(tok) => match mode {
            InsertionMode::Initial => 9,
            InsertionMode::BeforeHtml => 8,
            InsertionMode::BeforeHead => 7,
            InsertionMode::Text => 6,
            InsertionMode::InHead => 5,
            InsertionMode::AfterHead => 4,
            InsertionMode::AfterAfterBody => 3,
            InsertionMode::AfterBody => if end_kind(tok) == Some(ElementKind::Html) {
                1
            } else {
                3
            },
            InsertionMode::InBody => 2,
        },
    }
}

/// A token that is looked at again meets a mode of lower rank, and the
/// tokenizer has not moved.
pub proof fn lemma_reprocess_descends(p: ParserView, t: TokenView)
    requires
        mode_ok(p),
        dispatch(p, t).outcome is Reprocess,
    ensures
        dispatch(p, t).parser.lex == p.lex,
        rank(dispatch(p, t).parser.mode, Some(t)) < rank(p.mode, Some(t)),
{
}

/// A dispatch never gives the tokenizer more work.
pub proof fn lemma_dispatch_bounds(p: ParserView, t: TokenView)
    ensures
        lex_fuel(dispatch(p, t).parser.lex) <= lex_fuel(p.lex),
        dispatch(p, t).parser.lex.finished == p.lex.finished,
        dispatch(p, t).parser.lex.input == p.lex.input,
{
}

/// The parser after the machine has run to its end, starting with token `t`
/// in hand. It ends when a dispatch says so, or when the tokens are used up.
pub open spec fn run(p: ParserView, t: Option<TokenView>) -> ParserView
    decreases lex_fuel(p.lex), rank(p.mode, t),
    when mode_ok(p)
{
    match t {
        None => p,
        Some(tok) => {
            let d = dispatch(p, tok);
            match d.outcome {
                Outcome::Stop => d.parser,
                Outcome::Reprocess => {
                    proof {
                        lemma_reprocess_descends(p, tok);
                    }
                    run(d.parser, t)
                },
                Outcome::Advance => {
                    proof {
                        lemma_dispatch_bounds(p, tok);
                        lemma_next_uses_fuel(d.parser.lex);
                    }
                    let n = lex_next(d.parser.lex);
                    run(ParserView { lex: n.1, ..d.parser }, n.0)
                },
            }
        },
    }
}

/// The parser after a whole parse: the first token is pulled and the machine
/// runs to its end.
pub open spec fn parse(p: ParserView) -> ParserView {
    let n = lex_next(p.lex);
    run(ParserView { lex: n.1, ..p }, n.0)
}

/// The saved mode stays sound under every dispatch.
pub proof fn lemma_dispatch_mode_ok(p: ParserView, t: TokenView)
    requires
        mode_ok(p),
    ensures
        mode_ok(dispatch(p, t).parser),
{
}

/// The number of dispatches that `run` makes.
pub open spec fn dispatch_count(p: ParserView, t: Option<TokenView>) -> nat
    decreases lex_fuel(p.lex), rank(p.mode, t),
    when mode_ok(p)
{
    match t {
        None => 0,
        Some(tok) => {
            let d = dispatch(p, tok);
            match d.outcome {
                Outcome::Stop => 1,
                Outcome::Reprocess => {
                    proof {
                        lemma_reprocess_descends(p, tok);
                    }
                    1 + dispatch_count(d.parser, t)
                },
                Outcome::Advance => {
                    proof {
                        lemma_dispatch_bounds(p, tok);
                        lemma_next_uses_fuel(d.parser.lex);
                    }
                    let n = lex_next(d.parser.lex);
                    1 + dispatch_count(ParserView { lex: n.1, ..d.parser }, n.0)
                },
            }
        },
    }
}

/// The machine comes to an end on every input: a token is dispatched at most
/// nine times before it is used up, and the tokenizer hands out at most two
/// tokens for each character that is left, and two more.
pub proof fn lemma_run_ends(p: ParserView, t: Option<TokenView>)
    requires
        mode_ok(p),
    ensures
        dispatch_count(p, t) <= 9 * lex_fuel(p.lex) + rank(p.mode, t),
        rank(p.mode, t) <= 9,
        lex_fuel(p.lex) <= 2 * p.lex.input.len() + 3,
    decreases lex_fuel(p.lex), rank(p.mode, t),
{
    match t {
        None => {},
        Some(tok) => {
            let d = dispatch(p, tok);
            lemma_dispatch_mode_ok(p, tok);
            match d.outcome {
                Outcome::Stop => {},
                Outcome::Reprocess => {
                    lemma_reprocess_descends(p, tok);
                    lemma_run_ends(d.parser, t);
                },
                Outcome::Advance => {
                    lemma_dispatch_bounds(p, tok);
                    lemma_next_uses_fuel(d.parser.lex);
                    let n = lex_next(d.parser.lex);
                    lemma_run_ends(ParserView { lex: n.1, ..d.parser }, n.0);
                },
            }
        },
    }
}

/// The document that the characters of `input` stand for.
pub open spec fn document_of(input: Seq<char>) -> DomView {
    parse(parser_start(crate::token::lex_start(input))).dom
}

/// Parsing is a function of the input: the same characters give the same
/// document, node for node.
pub proof fn lemma_same_input_same_document(a: Seq<char>, b: Seq<char>)
    requires
        a == b,
    ensures
        document_of(a) == document_of(b),
{
}

/// The text of node `id`; empty if it is not a text node.
pub open spec fn text_at(dom: DomView, id: usize) -> Seq<char> {
    match dom[id as int].data {
        NodeData::Text(s) => s,
        _ => Seq::empty(),
    }
}

/// In `InBody` and in `Text` a character token is taken in as text and used
/// up.
pub proof fn lemma_char_is_text(p: ParserView, c: char)
    requires
        p.mode is InBody || p.mode is Text,
    ensures
        dispatch(p, TokenView::Char(c)) == advance(insert_char(p, c)),
{
}

/// A character that arrives while an element is open lands at the end of the
/// text node that closes the children of the current node. If there was such
/// a text node, it grows by the character and no node is made; else a text
/// node is made that holds the character alone.
pub proof fn lemma_insert_char_text(p: ParserView, c: char)
    requires
        links_ok(p.dom, p.stack),
        p.stack.len() > 0,
        p.dom.len() < usize::MAX,
    ensures
        ({
            let q = insert_char(p, c);
            &&& links_ok(q.dom, q.stack)
            &&& q.stack == p.stack
            &&& open_text(q) matches Some(id) && match open_text(p) {
                Some(old) => {
                    &&& id == old
                    &&& q.dom.len() == p.dom.len()
                    &&& text_at(q.dom, id) == text_at(p.dom, old).push(c)
                },
                None => {
                    &&& id == p.dom.len()
                    &&& q.dom.len() == p.dom.len() + 1
                    &&& text_at(q.dom, id) == seq![c]
                },
            }
        }),
{
    let q = insert_char(p, c);
    let cur = current_node(p);
    assert(stack_entry_ok(p.dom, p.stack, p.stack.len() - 1));
    let kids = p.dom[cur as int].children;
    match open_text(p) {
        Some(old) => {
            assert(child_ok(p.dom, cur as int, kids.len() - 1));
            lemma_push_char_frame(p.dom, old, c);
            lemma_insert_char(p, c);
        },
        None => {
            let data = NodeData::Text(seq![c]);
            lemma_append_len(p.dom, cur, data);
            lemma_append_frame(p.dom, cur, data);
            lemma_insert_char(p, c);
        },
    }
}

/// The parser after the characters of `cs` were taken in as text, one after
/// the other.
pub open spec fn insert_chars(p: ParserView, cs: Seq<char>) -> ParserView
    decreases cs.len(),
{
    if cs.len() == 0 {
        p
    } else {
        insert_char(insert_chars(p, cs.drop_last()), cs.last())
    }
}

/// Characters that arrive one after the other while an element is open end up
/// in one text node: the one that was open for text before, grown by all of
/// them, or one new node that holds them all.
pub proof fn lemma_chars_coalesce(p: ParserView, cs: Seq<char>)
    requires
        links_ok(p.dom, p.stack),
        p.stack.len() > 0,
        p.dom.len() < usize::MAX,
        cs.len() > 0,
    ensures
        ({
            let q = insert_chars(p, cs);
            &&& links_ok(q.dom, q.stack)
            &&& q.stack == p.stack
            &&& open_text(q) matches Some(id) && match open_text(p) {
                Some(old) => {
                    &&& id == old
                    &&& q.dom.len() == p.dom.len()
                    &&& text_at(q.dom, id) == text_at(p.dom, old) + cs
                },
                None => {
                    &&& id == p.dom.len()
                    &&& q.dom.len() == p.dom.len() + 1
                    &&& text_at(q.dom, id) == cs
                },
            }
        }),
    decreases cs.len(),
{
    let head = cs.drop_last();
    let c = cs.last();
    assert(cs =~= head.push(c));
    if head.len() == 0 {
        assert(insert_chars(p, head) == p);
        lemma_insert_char_text(p, c);
        assert(cs =~= seq![c]);
        if open_text(p) is Some {
            assert(text_at(p.dom, open_text(p).unwrap()).push(c) =~= text_at(
                p.dom,
                open_text(p).unwrap(),
            ) + cs);
        }
    } else {
        lemma_chars_coalesce(p, head);
        let mid = insert_chars(p, head);
        if open_text(p) is Some {
            lemma_insert_char_text(mid, c);
            let old = open_text(p).unwrap();
            assert((text_at(p.dom, old) + head).push(c) =~= text_at(p.dom, old) + cs);
        } else {
            // one node was made for the first character; the rest extend it
            lemma_insert_char_extends(mid, c);
        }
    }
}

/// While a text node is open for text, one more character makes no node.
pub proof fn lemma_insert_char_extends(p: ParserView, c: char)
    requires
        links_ok(p.dom, p.stack),
        p.stack.len() > 0,
        open_text(p) is Some,
    ensures
        ({
            let q = insert_char(p, c);
            let id = open_text(p).unwrap();
            &&& links_ok(q.dom, q.stack)
            &&& q.stack == p.stack
            &&& q.dom.len() == p.dom.len()
            &&& open_text(q) == Some(id)
            &&& text_at(q.dom, id) == text_at(p.dom, id).push(c)
        }),
{
    let cur = current_node(p);
    let id = open_text(p).unwrap();
    assert(stack_entry_ok(p.dom, p.stack, p.stack.len() - 1));
    let kids = p.dom[cur as int].children;
    assert(child_ok(p.dom, cur as int, kids.len() - 1));
    lemma_push_char_frame(p.dom, id, c);
    lemma_insert_char(p, c);
}

/// The stack of open elements is a path in the tree: every entry is an
/// element of the document, the lowest hangs below the document node, each
/// other one below the entry before it. So the entries rise, and no element
/// is open twice.
pub proof fn lemma_stack_is_path(p: ParserView, i: int, j: int)
    requires
        parser_wf(p),
        0 <= i < j < p.stack.len(),
    ensures
        kind_at(p.dom, p.stack[i]) is Some,
        kind_at(p.dom, p.stack[j]) is Some,
        p.stack[i] < p.stack[j] < p.dom.len(),
        p.dom[p.stack[j] as int].parent == Some(p.stack[j - 1]),
        p.stack[0] > 0 && p.dom[p.stack[0] as int].parent == Some(0usize),
    decreases j - i,
{
    assert(stack_entry_ok(p.dom, p.stack, i));
    assert(stack_entry_ok(p.dom, p.stack, j));
    assert(stack_entry_ok(p.dom, p.stack, 0));
    assert(crate::dom::node_ok(p.dom, p.stack[j] as int));
    assert(crate::dom::node_ok(p.dom, p.stack[0] as int)) by {
        if p.stack[0] == 0 {
            assert(p.dom[0].data is Document);
        }
    }
    if i + 1 < j {
        lemma_stack_is_path(p, i, j - 1);
    }
}

/// The element kind that a tag name stands for, if it stands for one.
fn named_kind(tag: &String) -> (r: Option<ElementKind>)
    ensures
        r == ElementKind::spec_from_name(tag@),
{
    match ElementKind::from_name(tag.as_str()) {
        Ok(kind) => Some(kind),
        Err(_) => None,
    }
}

/// The tree constructor: a tokenizer, the document under construction, the
/// insertion mode and the stack of open elements.
#[derive(Debug)]
pub struct HtmlParser {
    window: Window,
    mode: InsertionMode,
    original_insertion_mode: InsertionMode,
    stack_of_open_elements: Vec<usize>,
    t: HtmlTokenizer,
}

impl View for HtmlParser {
    type V = ParserView;

    closed spec fn view(&self) -> ParserView {
        ParserView {
            dom: self.window@,
            stack: self.stack_of_open_elements@,
            mode: self.mode,
            original_mode: self.original_insertion_mode,
            lex: self.t@,
        }
    }
}

impl Clone for HtmlParser {
    fn clone(&self) -> (r: Self)
        ensures
            r@ == self@,
    {
        HtmlParser {
            window: self.window.clone(),
            mode: self.mode,
            original_insertion_mode: self.original_insertion_mode,
            stack_of_open_elements: self.stack_of_open_elements.clone(),
            t: self.t.clone(),
        }
    }
}

impl HtmlParser {
    /// The invariant of the parser.
    pub open spec fn wf(&self) -> bool {
        parser_wf(self@)
    }

    /// A parser over the tokens of `t`, with an empty document.
    pub fn new(t: HtmlTokenizer) -> (r: Self)
        ensures
            r@ == parser_start(t@),
            r.wf(),
    {
        HtmlParser {
            window: Window::new(),
            mode: InsertionMode::Initial,
            original_insertion_mode: InsertionMode::Initial,
            stack_of_open_elements: Vec::new(),
            t,
        }
    }

    /// The insertion mode the parser is in.
    pub fn mode(&self) -> (r: InsertionMode)
        ensures
            r == self@.mode,
    {
        self.mode
    }

    /// The document as it stands.
    pub fn window(&self) -> (r: &Window)
        ensures
            r@ == self@.dom,
    {
        &self.window
    }

    /// The stack of open elements, lowest entry first.
    pub fn open_elements(&self) -> (r: &Vec<usize>)
        ensures
            r@ == self@.stack,
    {
        &self.stack_of_open_elements
    }

    fn insert_element(&mut self, kind: ElementKind, attributes: Vec<Attribute>)
        requires
            links_ok(old(self)@.dom, old(self)@.stack),
        ensures
            final(self)@ == insert_element(old(self)@, kind, attributes_view(attributes@)),
            links_ok(final(self)@.dom, final(self)@.stack),
    {
        let n: usize = self.stack_of_open_elements.len();
        let current: usize = if n > 0 {
            self.stack_of_open_elements[n - 1]
        } else {
            0
        };
        proof {
            if n > 0 {
                assert(stack_entry_ok(self@.dom, self@.stack, n - 1));
            }
        }
        let id: usize = self.window.append_child(current, create_element(kind, attributes));
        self.stack_of_open_elements.push(id);
        proof {
            self.window.lemma_fits();
            lemma_append_len(
                old(self)@.dom,
                current,
                NodeData::Element { kind, attributes: attributes_view(attributes@) },
            );
            lemma_insert_element(old(self)@, kind, attributes_view(attributes@));
        }
    }

    fn insert_char(&mut self, c: char)
        requires
            links_ok(old(self)@.dom, old(self)@.stack),
        ensures
            final(self)@ == insert_char(old(self)@, c),
            links_ok(final(self)@.dom, final(self)@.stack),
    {
        let n: usize = self.stack_of_open_elements.len();
        if n == 0 {
            return ;
        }
        let current: usize = self.stack_of_open_elements[n - 1];
        proof {
            assert(stack_entry_ok(self@.dom, self@.stack, n - 1));
        }
        match self.window.last_child(current) {
            Some(last) => {
                proof {
                    let kids = self@.dom[current as int].children;
                    assert(child_ok(self@.dom, current as int, kids.len() - 1));
                }
                let is_text: bool = match self.window.node(last).kind() {
                    NodeKind::Text(_) => true,
                    _ => false,
                };
                if is_text {
                    self.window.append_char(last, c);
                    proof {
                        self.window.lemma_fits();
                        lemma_insert_char(old(self)@, c);
                    }
                    return ;
                }
            },
            None => {},
        }
        let mut text = String::new();
        text.push(c);
        assert(text@ == seq![c]);
        self.window.append_child(current, create_text(text));
        proof {
            self.window.lemma_fits();
            lemma_insert_char(old(self)@, c);
        }
    }

    /// Whether the element at position `i` of the stack is of `kind`.
    fn entry_is(&self, i: usize, kind: ElementKind) -> (r: bool)
        requires
            links_ok(self@.dom, self@.stack),
            i < self@.stack.len(),
        ensures
            r == (kind_at(self@.dom, self@.stack[i as int]) == Some(kind)),
    {
        proof {
            assert(stack_entry_ok(self@.dom, self@.stack, i as int));
        }
        match self.window.node(self.stack_of_open_elements[i]).element_kind() {
            Some(k) => k == kind,
            None => false,
        }
    }

    fn pop_until(&mut self, kind: ElementKind)
        requires
            links_ok(old(self)@.dom, old(self)@.stack),
        ensures
            final(self)@ == with_stack(
                old(self)@,
                stack_pop_until(old(self)@.dom, old(self)@.stack, kind),
            ),
            links_ok(final(self)@.dom, final(self)@.stack),
    {
        let mut i: usize = self.stack_of_open_elements.len();
        while i > 0
            invariant
                i <= self.stack_of_open_elements.len(),
                self@ == old(self)@,
                links_ok(self@.dom, self@.stack),
                top_index_of(self@.dom, self@.stack, kind, i as nat) == top_index_of(
                    self@.dom,
                    self@.stack,
                    kind,
                    self@.stack.len(),
                ),
            decreases i,
        {
            i = i - 1;
            if self.entry_is(i, kind) {
                self.stack_of_open_elements.truncate(i);
                proof {
                    lemma_cut_stack(old(self)@, i as int);
                }
                return ;
            }
        }
    }

    fn pop_current_node(&mut self, kind: ElementKind) -> (r: bool)
        requires
            links_ok(old(self)@.dom, old(self)@.stack),
        ensures
            r == stack_top_is(old(self)@.dom, old(self)@.stack, kind),
            final(self)@ == with_stack(
                old(self)@,
                stack_pop_current(old(self)@.dom, old(self)@.stack, kind),
            ),
            links_ok(final(self)@.dom, final(self)@.stack),
    {
        let n: usize = self.stack_of_open_elements.len();
        if n > 0 && self.entry_is(n - 1, kind) {
            self.stack_of_open_elements.truncate(n - 1);
            proof {
                lemma_cut_stack(old(self)@, n - 1);
            }
            true
        } else {
            false
        }
    }

    fn contain_in_stack(&self, kind: ElementKind) -> (r: bool)
        requires
            links_ok(self@.dom, self@.stack),
        ensures
            r == stack_contains(self@.dom, self@.stack, kind),
    {
        let mut i: usize = 0;
        while i < self.stack_of_open_elements.len()
            invariant
                i <= self.stack_of_open_elements.len(),
                links_ok(self@.dom, self@.stack),
                forall|j: int| 0 <= j < i ==> kind_at(self@.dom, #[trigger] self@.stack[j]) != Some(kind),
            decreases self.stack_of_open_elements.len() - i,
        {
            if self.entry_is(i, kind) {
                return true;
            }
            i = i + 1;
        }
        false
    }

    fn step_initial(&mut self, token: &HtmlToken) -> (r: Outcome)
        requires
            old(self).wf(),
            old(self)@.mode is Initial,
        ensures
            final(self)@ == dispatch(old(self)@, token@).parser,
            r == dispatch(old(self)@, token@).outcome,
            final(self).wf(),
    {
        match token {
            HtmlToken::Char(_) => Outcome::Advance,
            _ => {
                self.mode = InsertionMode::BeforeHtml;
                Outcome::Reprocess
            },
        }
    }

    /// The rule shared by `BeforeHtml`, `BeforeHead` and `AfterHead`.
    fn step_open(&mut self, token: &HtmlToken, kind: ElementKind, then: InsertionMode) -> (r:
        Outcome)
        requires
            old(self).wf(),
            old(self)@.mode is BeforeHtml || old(self)@.mode is BeforeHead || old(self)@.mode
                is AfterHead,
            dispatch(old(self)@, token@) == step_open(old(self)@, token@, kind, then),
        ensures
            final(self)@ == dispatch(old(self)@, token@).parser,
            r == dispatch(old(self)@, token@).outcome,
            final(self).wf(),
    {
        match token {
            HtmlToken::Char(c) => {
                if is_whitespace(*c) {
                    return Outcome::Advance;
                }
            },
            HtmlToken::StartTag { tag, self_closing: _, attributes } => {
                let named: bool = match named_kind(tag) {
                    Some(k) => k == kind,
                    None => false,
                };
                if named {
                    self.insert_element(kind, clone_attributes(attributes));
                    self.mode = then;
                    proof {
                        self.window.lemma_fits();
                        lemma_dispatch_wf(old(self)@, token@);
                    }
                    return Outcome::Advance;
                }
            },
            HtmlToken::Eof => {
                return Outcome::Stop;
            },
            _ => {},
        }
        let none: Vec<Attribute> = Vec::new();
        assert(attributes_view(none@) =~= Seq::empty());
        self.insert_element(kind, none);
        self.mode = then;
        proof {
            self.window.lemma_fits();
            lemma_dispatch_wf(old(self)@, token@);
        }
        Outcome::Reprocess
    }

    fn step_in_head(&mut self, token: &HtmlToken) -> (r: Outcome)
        requires
            old(self).wf(),
            old(self)@.mode is InHead,
        ensures
            final(self)@ == dispatch(old(self)@, token@).parser,
            r == dispatch(old(self)@, token@).outcome,
            final(self).wf(),
    {
        proof {
            self.window.lemma_fits();
        }
        match token {
            HtmlToken::Char(c) => {
                if is_whitespace(*c) {
                    return Outcome::Advance;
                }
            },
            HtmlToken::StartTag { tag, self_closing: _, attributes } => {
                match named_kind(tag) {
                    Some(kind) => {
                        if kind == ElementKind::Style || kind == ElementKind::Script {
                            self.insert_element(kind, clone_attributes(attributes));
                            self.original_insertion_mode = self.mode;
                            self.mode = InsertionMode::Text;
                            self.t.enter_rawtext(tag.as_str());
                            proof {
                                self.window.lemma_fits();
                                lemma_dispatch_wf(old(self)@, token@);
                            }
                            return Outcome::Advance;
                        }
                        self.pop_until(ElementKind::Head);
                        self.mode = InsertionMode::AfterHead;
                        proof {
                            lemma_dispatch_wf(old(self)@, token@);
                        }
                        return Outcome::Reprocess;
                    },
                    None => {},
                }
            },
            HtmlToken::EndTag { tag } => {
                let head: bool = match named_kind(tag) {
                    Some(k) => k == ElementKind::Head,
                    None => false,
                };
                if head {
                    self.mode = InsertionMode::AfterHead;
                    self.pop_until(ElementKind::Head);
                    proof {
                        lemma_dispatch_wf(old(self)@, token@);
                    }
                    return Outcome::Advance;
                }
            },
            HtmlToken::Eof => {
                return Outcome::Stop;
            },
        }
        Outcome::Advance
    }

    fn step_in_body(&mut self, token: &HtmlToken) -> (r: Outcome)
        requires
            old(self).wf(),
            old(self)@.mode is InBody,
        ensures
            final(self)@ == dispatch(old(self)@, token@).parser,
            r == dispatch(old(self)@, token@).outcome,
            final(self).wf(),
    {
        proof {
            self.window.lemma_fits();
        }
        match token {
            HtmlToken::StartTag { tag, self_closing: _, attributes } => {
                match named_kind(tag) {
                    Some(kind) => {
                        if flow_kind(kind) {
                            self.insert_element(kind, clone_attributes(attributes));
                            proof {
                                self.window.lemma_fits();
                                lemma_dispatch_wf(old(self)@, token@);
                            }
                        }
                    },
                    None => {},
                }
                Outcome::Advance
            },
            HtmlToken::EndTag { tag } => {
                match named_kind(tag) {
                    Some(ElementKind::Body) => {
                        self.mode = InsertionMode::AfterBody;
                        proof {
                            lemma_pop_until(self@.dom, self@.stack, ElementKind::Body);
                        }
                        if self.contain_in_stack(ElementKind::Body) {
                            self.pop_until(ElementKind::Body);
                        }
                        proof {
                            lemma_dispatch_wf(old(self)@, token@);
                        }
                        Outcome::Advance
                    },
                    Some(ElementKind::Html) => {
                        proof {
                            lemma_step_in_body_wf(old(self)@, token@);
                        }
                        if self.pop_current_node(ElementKind::Body) {
                            self.mode = InsertionMode::AfterBody;
                            let popped: bool = self.pop_current_node(ElementKind::Html);
                            assert(popped);
                            Outcome::Reprocess
                        } else {
                            Outcome::Advance
                        }
                    },
                    Some(kind) => {
                        if flow_kind(kind) {
                            self.pop_until(kind);
                            proof {
                                lemma_dispatch_wf(old(self)@, token@);
                            }
                        }
                        Outcome::Advance
                    },
                    None => Outcome::Advance,
                }
            },
            HtmlToken::Char(c) => {
                self.insert_char(*c);
                proof {
                    self.window.lemma_fits();
                    lemma_dispatch_wf(old(self)@, token@);
                }
                Outcome::Advance
            },
            HtmlToken::Eof => Outcome::Stop,
        }
    }

    fn step_text(&mut self, token: &HtmlToken) -> (r: Outcome)
        requires
            old(self).wf(),
            old(self)@.mode is Text,
        ensures
            final(self)@ == dispatch(old(self)@, token@).parser,
            r == dispatch(old(self)@, token@).outcome,
            final(self).wf(),
    {
        proof {
            self.window.lemma_fits();
        }
        match token {
            HtmlToken::Eof => {
                return Outcome::Stop;
            },
            HtmlToken::EndTag { tag } => {
                match named_kind(tag) {
                    Some(ElementKind::Style) => {
                        self.pop_until(ElementKind::Style);
                        self.mode = self.original_insertion_mode;
                        proof {
                            lemma_dispatch_wf(old(self)@, token@);
                        }
                        return Outcome::Advance;
                    },
                    Some(ElementKind::Script) => {
                        self.pop_until(ElementKind::Script);
                        self.mode = self.original_insertion_mode;
                        proof {
                            lemma_dispatch_wf(old(self)@, token@);
                        }
                        return Outcome::Advance;
                    },
                    _ => {},
                }
            },
            HtmlToken::Char(c) => {
                self.insert_char(*c);
                proof {
                    self.window.lemma_fits();
                    lemma_dispatch_wf(old(self)@, token@);
                }
                return Outcome::Advance;
            },
            _ => {},
        }
        self.mode = self.original_insertion_mode;
        proof {
            lemma_dispatch_wf(old(self)@, token@);
        }
        Outcome::Reprocess
    }

    fn step_after_body(&mut self, token: &HtmlToken) -> (r: Outcome)
        requires
            old(self).wf(),
            old(self)@.mode is AfterBody,
        ensures
            final(self)@ == dispatch(old(self)@, token@).parser,
            r == dispatch(old(self)@, token@).outcome,
            final(self).wf(),
    {
        proof {
            self.window.lemma_fits();
            lemma_dispatch_wf(old(self)@, token@);
        }
        match token {
            HtmlToken::Char(_) => {
                return Outcome::Advance;
            },
            HtmlToken::EndTag { tag } => {
                let html: bool = match named_kind(tag) {
                    Some(k) => k == ElementKind::Html,
                    None => false,
                };
                if html {
                    self.mode = InsertionMode::AfterAfterBody;
                    return Outcome::Advance;
                }
            },
            HtmlToken::Eof => {
                return Outcome::Stop;
            },
            _ => {},
        }
        self.mode = InsertionMode::InBody;
        Outcome::Reprocess
    }

    fn step_after_after_body(&mut self, token: &HtmlToken) -> (r: Outcome)
        requires
            old(self).wf(),
            old(self)@.mode is AfterAfterBody,
        ensures
            final(self)@ == dispatch(old(self)@, token@).parser,
            r == dispatch(old(self)@, token@).outcome,
            final(self).wf(),
    {
        proof {
            self.window.lemma_fits();
            lemma_dispatch_wf(old(self)@, token@);
        }
        match token {
            HtmlToken::Char(_) => {
                return Outcome::Advance;
            },
            HtmlToken::Eof => {
                return Outcome::Stop;
            },
            _ => {},
        }
        self.mode = InsertionMode::InBody;
        Outcome::Reprocess
    }

    /// Dispatches one token in the current insertion mode.
    fn dispatch(&mut self, token: &HtmlToken) -> (r: Outcome)
        requires
            old(self).wf(),
        ensures
            final(self)@ == dispatch(old(self)@, token@).parser,
            r == dispatch(old(self)@, token@).outcome,
            final(self).wf(),
    {
        match self.mode {
            InsertionMode::Initial => self.step_initial(token),
            InsertionMode::BeforeHtml => self.step_open(
                token,
                ElementKind::Html,
                InsertionMode::BeforeHead,
            ),
            InsertionMode::BeforeHead => self.step_open(
                token,
                ElementKind::Head,
                InsertionMode::InHead,
            ),
            InsertionMode::InHead => self.step_in_head(token),
            InsertionMode::AfterHead => self.step_open(
                token,
                ElementKind::Body,
                InsertionMode::InBody,
            ),
            InsertionMode::InBody => self.step_in_body(token),
            InsertionMode::Text => self.step_text(token),
            InsertionMode::AfterBody => self.step_after_body(token),
            InsertionMode::AfterAfterBody => self.step_after_after_body(token),
        }
    }

    /// Runs the parse to its end and returns the document.
    ///
    /// Tokens are pulled one by one. Each is dispatched on the insertion mode
    /// until it is used up; the parse ends with the `Eof` token, or when the
    /// tokenizer has nothing more to give. The document that comes back is a
    /// tree rooted at its document node, and the parser keeps a copy of it.
    pub fn construction_tree(&mut self) -> (w: Window)
        requires
            old(self).wf(),
        ensures
            final(self)@ == parse(old(self)@),
            final(self).wf(),
            w@ == final(self)@.dom,
            w.wf(),
    {
        let ghost goal = parse(old(self)@);
        let mut token: Option<HtmlToken> = self.t.next();
        loop
            invariant_except_break
                run(self@, token_view(token)) == goal,
            invariant
                self.wf(),
                goal == parse(old(self)@),
            ensures
                self@ == goal,
            decreases lex_fuel(self@.lex), rank(self@.mode, token_view(token)),
        {
            let ghost before = self@;
            let outcome: Outcome = match &token {
                None => Outcome::Stop,
                Some(tok) => self.dispatch(tok),
            };
            match outcome {
                Outcome::Stop => {
                    break ;
                },
                Outcome::Reprocess => {
                    proof {
                        lemma_reprocess_descends(before, token.unwrap()@);
                    }
                },
                Outcome::Advance => {
                    proof {
                        lemma_dispatch_bounds(before, token.unwrap()@);
                        lemma_next_uses_fuel(self@.lex);
                    }
                    token = self.t.next();
                },
            }
        }
        self.window.clone()
    }
}

} // verus!
