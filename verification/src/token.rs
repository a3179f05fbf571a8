//! The tokenizer: a scanner over the characters of a document that hands out
//! one token per call.
//!
//! Between two calls the scanner rests in one of three states: `Data`, or one
//! of the two raw states that the tree constructor switches on after a
//! `<style>` or `<script>` start tag. All other states are passed through
//! while a single tag is being read.

use vstd::prelude::*;
use crate::dom::{attributes_view, clone_attributes, Attribute, AttributeView};
use crate::text::{
    ascii_lower, is_ascii_alpha, is_whitespace, lemma_ascii_lower_idempotent, same_text,
    spec_ascii_lower, spec_is_ascii_alpha, spec_is_ascii_upper, spec_is_whitespace, to_chars,
};

verus! {

/// A token, as plain values.
pub enum TokenView {
    StartTag { tag: Seq<char>, self_closing: bool, attributes: Seq<AttributeView> },
    EndTag { tag: Seq<char> },
    Char(char),
    Eof,
}

/// The unit that the tokenizer hands to the tree constructor. Tag names are
/// lower case; whitespace arrives as `Char` tokens like any other character.
#[derive(Debug, PartialEq, Eq)]
pub enum HtmlToken {
    StartTag { tag: String, self_closing: bool, attributes: Vec<Attribute> },
    EndTag { tag: String },
    Char(char),
    Eof,
}

impl View for HtmlToken {
    type V = TokenView;

    open spec fn view(&self) -> TokenView {
        match self {
            HtmlToken::StartTag { tag, self_closing, attributes } => TokenView::StartTag {
                tag: tag@,
                self_closing: *self_closing,
                attributes: attributes_view(attributes@),
            },
            HtmlToken::EndTag { tag } => TokenView::EndTag { tag: tag@ },
            HtmlToken::Char(c) => TokenView::Char(*c),
            HtmlToken::Eof => TokenView::Eof,
        }
    }
}

impl Clone for HtmlToken {
    fn clone(&self) -> (r: Self)
        ensures
            r@ == self@,
    {
        match self {
            HtmlToken::StartTag { tag, self_closing, attributes } => HtmlToken::StartTag {
                tag: tag.clone(),
                self_closing: *self_closing,
                attributes: clone_attributes(attributes),
            },
            HtmlToken::EndTag { tag } => HtmlToken::EndTag { tag: tag.clone() },
            HtmlToken::Char(c) => HtmlToken::Char(*c),
            HtmlToken::Eof => HtmlToken::Eof,
        }
    }
}

/// The view of a token that may be absent.
pub open spec fn token_view(t: Option<HtmlToken>) -> Option<TokenView> {
    match t {
        Some(t) => Some(t@),
        None => None,
    }
}

/// The states of the scanner.
#[derive(Clone, Copy, Debug, PartialEq, Eq, Structural)]
pub enum State {
    Data,
    TagOpen,
    EndTagOpen,
    TagName,
    BeforeAttributeName,
    AttributeName,
    AfterAttributeName,
    BeforeAttributeValue,
    AttributeValueDoubleQuoted,
    AttributeValueSingleQuoted,
    AttributeValueUnquoted,
    AfterAttributeValueQuoted,
    SelfClosingStartTag,
    ScriptData,
    Rawtext,
}

/// The tag that is being read, as plain values.
pub struct TagView {
    pub is_start: bool,
    pub name: Seq<char>,
    pub self_closing: bool,
    pub attributes: Seq<AttributeView>,
}

/// The tag with which every scan starts: nothing has been read yet.
pub open spec fn blank_tag() -> TagView {
    TagView { is_start: true, name: Seq::empty(), self_closing: false, attributes: Seq::empty() }
}

/// A tag whose name begins with the lower-case form of `c`.
pub open spec fn tag_begin(is_start: bool, c: char) -> TagView {
    TagView {
        is_start,
        name: seq![spec_ascii_lower(c)],
        self_closing: false,
        attributes: Seq::empty(),
    }
}

pub open spec fn tag_push_name(tag: TagView, c: char) -> TagView {
    TagView { name: tag.name.push(spec_ascii_lower(c)), ..tag }
}

/// A new attribute whose name begins with the lower-case form of `c`.
pub open spec fn tag_begin_attribute(tag: TagView, c: char) -> TagView {
    TagView {
        attributes: tag.attributes.push(
            AttributeView { name: seq![spec_ascii_lower(c)], value: Seq::empty() },
        ),
        ..tag
    }
}

/// `c` added to the name or to the value of the attribute read last.
pub open spec fn tag_push_attribute(tag: TagView, c: char, is_name: bool) -> TagView {
    let n = tag.attributes.len();
    if n > 0 {
        let a = tag.attributes[n - 1];
        let b = if is_name {
            AttributeView { name: a.name.push(c), value: a.value }
        } else {
            AttributeView { name: a.name, value: a.value.push(c) }
        };
        TagView { attributes: tag.attributes.update(n - 1, b), ..tag }
    } else {
        tag
    }
}

/// The token that a finished tag becomes. An end tag keeps its name only.
pub open spec fn tag_token(tag: TagView) -> TokenView {
    if tag.is_start {
        TokenView::StartTag {
            tag: tag.name,
            self_closing: tag.self_closing,
            attributes: tag.attributes,
        }
    } else {
        TokenView::EndTag { tag: tag.name }
    }
}

/// What the scanner does with one character.
#[derive(Clone, Copy, Debug, PartialEq, Eq, Structural)]
pub enum Action {
    /// The character is used up and scanning goes on in the given state.
    Continue(State),
    /// A character token leaves. With `consumed` unset the input character
    /// stays where it is and is scanned again in the new state.
    EmitChar { c: char, state: State, consumed: bool },
    /// The character is used up and the tag read so far leaves as a token.
    EmitTag(State),
}

/// The outcome of one step: what to do, and the tag as it then stands.
pub struct Step {
    pub action: Action,
    pub tag: TagView,
}

/// The step for a character that may end or interrupt the attribute list:
/// `/` and `>` are handled alike in every state between attributes.
pub open spec fn step_between_attributes(tag: TagView, c: char) -> Step {
    if c == '/' {
        Step { action: Action::Continue(State::SelfClosingStartTag), tag }
    } else if c == '>' {
        Step { action: Action::EmitTag(State::Data), tag }
    } else {
        Step {
            action: Action::Continue(State::AttributeName),
            tag: tag_begin_attribute(tag, c),
        }
    }
}

/// The step in `BeforeAttributeName`: whitespace is skipped, `/` and `>` end
/// or interrupt the attribute list, and any other character begins the name
/// of a new attribute.
pub open spec fn step_before_attribute_name(tag: TagView, c: char) -> Step {
    if spec_is_whitespace(c) {
        Step { action: Action::Continue(State::BeforeAttributeName), tag }
    } else {
        step_between_attributes(tag, c)
    }
}

/// The transition table of the scanner outside the raw states: the action for
/// character `c` in `state`, and what becomes of the tag being read.
///
/// Whitespace is a space or a line feed. A `<` opens a tag only before a
/// letter or `/`; before anything else it is text, and the character after it
/// is scanned again as data. After `</`, a character that is no letter is
/// dropped together with the `</`. Letters of tag names and attribute names
/// are lowered. After a quoted attribute value, and after a `/` that `>` does
/// not follow, the character is handled as in `BeforeAttributeName`.
pub open spec fn lex_step(state: State, tag: TagView, c: char) -> Step {
    match state {
        State::Data => if c == '<' {
            Step { action: Action::Continue(State::TagOpen), tag }
        } else {
            Step { action: Action::EmitChar { c, state: State::Data, consumed: true }, tag }
        },
        State::TagOpen => if c == '/' {
            Step { action: Action::Continue(State::EndTagOpen), tag }
        } else if spec_is_ascii_alpha(c) {
            Step { action: Action::Continue(State::TagName), tag: tag_begin(true, c) }
        } else {
            Step { action: Action::EmitChar { c: '<', state: State::Data, consumed: false }, tag }
        },
        State::EndTagOpen => if spec_is_ascii_alpha(c) {
            Step { action: Action::Continue(State::TagName), tag: tag_begin(false, c) }
        } else {
            Step { action: Action::Continue(State::Data), tag }
        },
        State::TagName => if spec_is_whitespace(c) {
            Step { action: Action::Continue(State::BeforeAttributeName), tag }
        } else if c == '/' {
            Step { action: Action::Continue(State::SelfClosingStartTag), tag }
        } else if c == '>' {
            Step { action: Action::EmitTag(State::Data), tag }
        } else {
            Step { action: Action::Continue(State::TagName), tag: tag_push_name(tag, c) }
        },
        State::BeforeAttributeName => step_before_attribute_name(tag, c),
        State::AttributeName => if spec_is_whitespace(c) {
            Step { action: Action::Continue(State::AfterAttributeName), tag }
        } else if c == '=' {
            Step { action: Action::Continue(State::BeforeAttributeValue), tag }
        } else if c == '/' {
            Step { action: Action::Continue(State::SelfClosingStartTag), tag }
        } else if c == '>' {
            Step { action: Action::EmitTag(State::Data), tag }
        } else {
            Step {
                action: Action::Continue(State::AttributeName),
                tag: tag_push_attribute(tag, spec_ascii_lower(c), true),
            }
        },
        State::AfterAttributeName => if spec_is_whitespace(c) {
            Step { action: Action::Continue(State::AfterAttributeName), tag }
        } else if c == '=' {
            Step { action: Action::Continue(State::BeforeAttributeValue), tag }
        } else {
            step_between_attributes(tag, c)
        },
        State::BeforeAttributeValue => if spec_is_whitespace(c) {
            Step { action: Action::Continue(State::BeforeAttributeValue), tag }
        } else if c == '"' {
            Step { action: Action::Continue(State::AttributeValueDoubleQuoted), tag }
        } else if c == '\'' {
            Step { action: Action::Continue(State::AttributeValueSingleQuoted), tag }
        } else if c == '>' {
            Step { action: Action::EmitTag(State::Data), tag }
        } else {
            Step {
                action: Action::Continue(State::AttributeValueUnquoted),
                tag: tag_push_attribute(tag, c, false),
            }
        },
        State::AttributeValueDoubleQuoted => if c == '"' {
            Step { action: Action::Continue(State::AfterAttributeValueQuoted), tag }
        } else {
            Step {
                action: Action::Continue(State::AttributeValueDoubleQuoted),
                tag: tag_push_attribute(tag, c, false),
            }
        },
        State::AttributeValueSingleQuoted => if c == '\'' {
            Step { action: Action::Continue(State::AfterAttributeValueQuoted), tag }
        } else {
            Step {
                action: Action::Continue(State::AttributeValueSingleQuoted),
                tag: tag_push_attribute(tag, c, false),
            }
        },
        State::AttributeValueUnquoted => if spec_is_whitespace(c) {
            Step { action: Action::Continue(State::BeforeAttributeName), tag }
        } else if c == '>' {
            Step { action: Action::EmitTag(State::Data), tag }
        } else {
            Step {
                action: Action::Continue(State::AttributeValueUnquoted),
                tag: tag_push_attribute(tag, c, false),
            }
        },
        State::AfterAttributeValueQuoted => step_before_attribute_name(tag, c),
        State::SelfClosingStartTag => if c == '>' {
            Step { action: Action::EmitTag(State::Data), tag: TagView { self_closing: true, ..tag } }
        } else {
            step_before_attribute_name(tag, c)
        },
        State::ScriptData | State::Rawtext => Step {
            action: Action::EmitChar { c, state, consumed: true },
            tag,
        },
    }
}

/// Whether the input at `pos` reads `</name>`, the letters of the name in
/// either case.
pub open spec fn closes_raw(input: Seq<char>, pos: int, name: Seq<char>) -> bool {
    &&& pos + name.len() + 3 <= input.len()
    &&& input[pos] == '<'
    &&& input[pos + 1] == '/'
    &&& forall|i: int| 0 <= i < name.len() ==> spec_ascii_lower(input[pos + 2 + i]) == #[trigger] name[i]
    &&& input[pos + 2 + name.len()] == '>'
}

pub open spec fn is_raw(state: State) -> bool {
    state is ScriptData || state is Rawtext
}

/// The outcome of a scan: the token, and where and in which state the scanner
/// rests afterwards.
pub struct Scanned {
    pub token: TokenView,
    pub pos: int,
    pub state: State,
}

/// Scans from `pos` in `state`, with `tag` read so far, up to the next token.
///
/// At the end of the input a pending `<` leaves as a character; anything else
/// that was read of an unfinished tag is dropped, and `Eof` leaves. In a raw
/// state every character leaves as it is, until the input reads `</name>` for
/// the name in `raw_tag`: that leaves as one end tag, and the scanner is back
/// in `Data`.
pub open spec fn scan(input: Seq<char>, pos: int, state: State, tag: TagView, raw_tag: Seq<char>)
    -> Scanned
    decreases input.len() - pos,
{
    if pos < 0 || pos >= input.len() {
        if state is TagOpen {
            Scanned { token: TokenView::Char('<'), pos, state: State::Data }
        } else {
            Scanned { token: TokenView::Eof, pos, state: State::Data }
        }
    } else if is_raw(state) && closes_raw(input, pos, raw_tag) {
        Scanned {
            token: TokenView::EndTag { tag: raw_tag },
            pos: pos + raw_tag.len() + 3,
            state: State::Data,
        }
    } else {
        let step = lex_step(state, tag, input[pos]);
        match step.action {
            Action::Continue(next) => scan(input, pos + 1, next, step.tag, raw_tag),
            Action::EmitChar { c, state: next, consumed } => Scanned {
                token: TokenView::Char(c),
                pos: if consumed {
                    pos + 1
                } else {
                    pos
                },
                state: next,
            },
            Action::EmitTag(next) => Scanned {
                token: tag_token(step.tag),
                pos: pos + 1,
                state: next,
            },
        }
    }
}

/// The tokenizer, as plain values.
pub struct LexView {
    pub input: Seq<char>,
    pub pos: int,
    pub state: State,
    pub raw_tag: Seq<char>,
    pub finished: bool,
}

/// A tokenizer at the start of `input`.
pub open spec fn lex_start(input: Seq<char>) -> LexView {
    LexView { input, pos: 0, state: State::Data, raw_tag: Seq::empty(), finished: false }
}

/// The next token and the tokenizer after it. `Eof` leaves once, when the
/// input is used up; from then on there is no token and nothing changes.
pub open spec fn lex_next(v: LexView) -> (Option<TokenView>, LexView) {
    if v.finished {
        (None, v)
    } else {
        let s = scan(v.input, v.pos, v.state, blank_tag(), v.raw_tag);
        (
            Some(s.token),
            LexView { pos: s.pos, state: s.state, finished: s.token is Eof, ..v },
        )
    }
}

/// The tokenizer after the tree constructor asked for raw text up to the end
/// tag named `tag`.
pub open spec fn lex_enter_rawtext(v: LexView, tag: Seq<char>) -> LexView {
    LexView {
        state: if tag == "script"@ {
            State::ScriptData
        } else {
            State::Rawtext
        },
        raw_tag: tag,
        ..v
    }
}

/// A bound on the work left: it falls with every token that leaves.
pub open spec fn lex_fuel(v: LexView) -> nat {
    if v.finished {
        0
    } else {
        let left = if 0 <= v.pos <= v.input.len() {
            v.input.len() - v.pos
        } else {
            0
        };
        (2 * left + 2 + if v.state is TagOpen {
            1int
        } else {
            0int
        }) as nat
    }
}

/// A step that emits a character without using up the input is taken in
/// `TagOpen` only, and leaves that state.
pub proof fn lemma_step_progress(state: State, tag: TagView, c: char)
    ensures
        lex_step(state, tag, c).action matches Action::EmitChar { state: next, consumed, .. } ==> (
        consumed || (state is TagOpen && !(next is TagOpen))),
        lex_step(state, tag, c).action matches Action::EmitChar { state: next, .. } ==> !(next is TagOpen),
        lex_step(state, tag, c).action matches Action::EmitTag(next) ==> !(next is TagOpen),
{
}

/// A scan never moves backwards nor past the end of the input, and unless it
/// ends in `Eof` it uses up fuel: it either moves forward or leaves `TagOpen`.
pub proof fn lemma_scan_progress(
    input: Seq<char>,
    pos: int,
    state: State,
    tag: TagView,
    raw_tag: Seq<char>,
)
    requires
        0 <= pos <= input.len(),
    ensures
        ({
            let s = scan(input, pos, state, tag, raw_tag);
            &&& pos <= s.pos <= input.len()
            &&& (s.token is Eof || 2 * (input.len() - s.pos) + (if s.state is TagOpen {
                1int
            } else {
                0int
            }) < 2 * (input.len() - pos) + (if state is TagOpen {
                1int
            } else {
                0int
            }))
        }),
    decreases input.len() - pos,
{
    if pos >= input.len() {
    } else if is_raw(state) && closes_raw(input, pos, raw_tag) {
    } else {
        let step = lex_step(state, tag, input[pos]);
        lemma_step_progress(state, tag, input[pos]);
        match step.action {
            Action::Continue(next) => {
                lemma_scan_progress(input, pos + 1, next, step.tag, raw_tag);
            },
            _ => {},
        }
    }
}

/// Asking for a token changes neither the input nor the raw end tag, and as
/// long as `Eof` has not left it uses up fuel.
pub proof fn lemma_next_uses_fuel(v: LexView)
    ensures
        lex_next(v).1.input == v.input,
        lex_next(v).1.raw_tag == v.raw_tag,
        v.finished ==> lex_next(v) == (None::<TokenView>, v),
        !v.finished ==> lex_next(v).0 is Some && lex_fuel(lex_next(v).1) < lex_fuel(v),
        lex_next(v).1.finished <==> (v.finished || lex_next(v).0 == Some(TokenView::Eof)),
{
    if !v.finished {
        if 0 <= v.pos <= v.input.len() {
            lemma_scan_progress(v.input, v.pos, v.state, blank_tag(), v.raw_tag);
        }
    }
}

/// In `Data`, a character other than `<` leaves as itself and the tokenizer
/// moves on by one character.
pub proof fn lemma_data_char(v: LexView)
    requires
        !v.finished,
        v.state is Data,
        0 <= v.pos < v.input.len(),
        v.input[v.pos] != '<',
    ensures
        lex_next(v) == (Some(TokenView::Char(v.input[v.pos])), LexView { pos: v.pos + 1, ..v }),
{
}

/// At the end of the input, `Data` hands out `Eof` and then nothing more.
pub proof fn lemma_data_end(v: LexView)
    requires
        !v.finished,
        v.state is Data,
        v.pos == v.input.len(),
    ensures
        lex_next(v) == (Some(TokenView::Eof), LexView { finished: true, ..v }),
        lex_next(lex_next(v).1) == (None::<TokenView>, lex_next(v).1),
{
}

/// All the tokens that a tokenizer hands out from `v` on when nobody switches
/// it to raw text on the way.
pub open spec fn lex_all(v: LexView) -> Seq<TokenView>
    decreases lex_fuel(v),
{
    if v.finished {
        Seq::empty()
    } else {
        proof {
            lemma_next_uses_fuel(v);
        }
        let n = lex_next(v);
        seq![n.0.unwrap()] + lex_all(n.1)
    }
}

/// The characters of the `Char` tokens, in order.
pub open spec fn text_of(tokens: Seq<TokenView>) -> Seq<char>
    decreases tokens.len(),
{
    if tokens.len() == 0 {
        Seq::empty()
    } else {
        text_of(tokens.drop_last()) + (match tokens.last() {
            TokenView::Char(c) => seq![c],
            _ => Seq::empty(),
        })
    }
}

/// The token for the character `c`.
pub open spec fn char_token(c: char) -> TokenView {
    TokenView::Char(c)
}

/// One `Char` token for each character of `text`.
pub open spec fn char_tokens(text: Seq<char>) -> Seq<TokenView> {
    Seq::new(text.len(), |i: int| char_token(text[i]))
}

/// One `Char` token for each character of `text`, then `Eof`.
pub open spec fn chars_then_eof(text: Seq<char>) -> Seq<TokenView> {
    char_tokens(text).push(TokenView::Eof)
}

/// From `Data`, input without `<` comes out as one `Char` token for each
/// character that is left, then `Eof`.
pub proof fn lemma_plain_text(v: LexView)
    requires
        !v.finished,
        v.state is Data,
        0 <= v.pos <= v.input.len(),
        forall|i: int| v.pos <= i < v.input.len() ==> v.input[i] != '<',
    ensures
        lex_all(v) == chars_then_eof(v.input.subrange(v.pos, v.input.len() as int)),
    decreases v.input.len() - v.pos,
{
    let rest = v.input.subrange(v.pos, v.input.len() as int);
    if v.pos == v.input.len() {
        lemma_data_end(v);
        let done = lex_next(v).1;
        assert(lex_all(done) == Seq::<TokenView>::empty());
        assert(lex_all(v) == seq![TokenView::Eof] + lex_all(done));
        assert(lex_all(v) =~= chars_then_eof(rest));
    } else {
        lemma_data_char(v);
        let next = lex_next(v).1;
        lemma_plain_text(next);
        let tail = v.input.subrange(v.pos + 1, v.input.len() as int);
        assert(lex_all(v) == seq![TokenView::Char(v.input[v.pos])] + lex_all(next));
        assert(lex_all(next) == chars_then_eof(tail));
        assert forall|i: int| 0 <= i < rest.len() implies char_tokens(rest)[i] == (seq![
            TokenView::Char(v.input[v.pos]),
        ] + char_tokens(tail))[i] by {
            if i > 0 {
                assert(char_tokens(tail)[i - 1] == TokenView::Char(tail[i - 1]));
                assert(tail[i - 1] == rest[i]);
            }
        }
        assert(lex_all(v) =~= chars_then_eof(rest));
    }
}

/// The characters of `char_tokens(text)` are `text`.
pub proof fn lemma_text_of_char_tokens(text: Seq<char>)
    ensures
        text_of(char_tokens(text)) == text,
    decreases text.len(),
{
    if text.len() == 0 {
        assert(text =~= Seq::<char>::empty());
    } else {
        lemma_text_of_char_tokens(text.drop_last());
        assert(char_tokens(text).drop_last() =~= char_tokens(text.drop_last()));
        assert(char_tokens(text).last() == TokenView::Char(text.last()));
        assert(text =~= text.drop_last() + seq![text.last()]);
    }
}

/// The characters of `chars_then_eof(text)` are `text`.
pub proof fn lemma_text_of_chars(text: Seq<char>)
    ensures
        text_of(chars_then_eof(text)) == text,
{
    let tokens = chars_then_eof(text);
    assert(tokens.last() == TokenView::Eof);
    assert(tokens.drop_last() =~= char_tokens(text));
    lemma_text_of_char_tokens(text);
    assert(text + Seq::<char>::empty() =~= text);
}

/// Text without `<` goes through the tokenizer unchanged: it comes out as one
/// `Char` token for each character, then `Eof`, and the characters of those
/// tokens are the input.
pub proof fn lemma_plain_text_round_trip(input: Seq<char>)
    requires
        forall|i: int| 0 <= i < input.len() ==> input[i] != '<',
    ensures
        lex_all(lex_start(input)) == chars_then_eof(input),
        text_of(lex_all(lex_start(input))) == input,
{
    lemma_plain_text(lex_start(input));
    assert(input.subrange(0, input.len() as int) == input);
    lemma_text_of_chars(input);
}

/// `Eof` is the last token that a tokenizer hands out, and it hands it out
/// once.
pub proof fn lemma_eof_once(v: LexView)
    requires
        !v.finished,
    ensures
        lex_all(v).len() >= 1,
        lex_all(v).last() == TokenView::Eof,
        forall|i: int| 0 <= i < lex_all(v).len() - 1 ==> !(#[trigger] lex_all(v)[i] is Eof),
    decreases lex_fuel(v),
{
    lemma_next_uses_fuel(v);
    let n = lex_next(v);
    if n.1.finished {
        assert(lex_all(n.1) == Seq::<TokenView>::empty());
        assert(lex_all(v) =~= seq![n.0.unwrap()]);
    } else {
        lemma_eof_once(n.1);
        assert(lex_all(v) =~= seq![n.0.unwrap()] + lex_all(n.1));
        assert forall|i: int| 0 <= i < lex_all(v).len() - 1 implies !(#[trigger] lex_all(v)[i]
            is Eof) by {
            if i > 0 {
                assert(lex_all(v)[i] == lex_all(n.1)[i - 1]);
            }
        }
    }
}

/// The name of the tag and the names of its attributes hold no upper-case
/// ASCII letter.
pub open spec fn tag_is_lower(tag: TagView) -> bool {
    &&& forall|i: int| 0 <= i < tag.name.len() ==> !spec_is_ascii_upper(#[trigger] tag.name[i])
    &&& forall|k: int, i: int|
        0 <= k < tag.attributes.len() && 0 <= i < tag.attributes[k].name.len()
            ==> !spec_is_ascii_upper(#[trigger] tag.attributes[k].name[i])
}

/// The same of a token; it holds of every token that is not a tag.
pub open spec fn token_is_lower(t: TokenView) -> bool {
    match t {
        TokenView::StartTag { tag, self_closing, attributes } => tag_is_lower(
            TagView { is_start: true, name: tag, self_closing, attributes },
        ),
        TokenView::EndTag { tag } => forall|i: int|
            0 <= i < tag.len() ==> !spec_is_ascii_upper(#[trigger] tag[i]),
        _ => true,
    }
}

/// A step keeps the tag in lower case.
pub proof fn lemma_step_keeps_lower(state: State, tag: TagView, c: char)
    requires
        tag_is_lower(tag),
    ensures
        tag_is_lower(lex_step(state, tag, c).tag),
{
    lemma_ascii_lower_idempotent(c);
    let next = lex_step(state, tag, c).tag;
    assert forall|k: int, i: int|
        0 <= k < next.attributes.len() && 0 <= i < next.attributes[k].name.len()
            implies !spec_is_ascii_upper(#[trigger] next.attributes[k].name[i]) by {
        if k < tag.attributes.len() && i < tag.attributes[k].name.len() {
            assert(!spec_is_ascii_upper(tag.attributes[k].name[i]));
        }
    }
    assert forall|i: int| 0 <= i < next.name.len() implies !spec_is_ascii_upper(
        #[trigger] next.name[i],
    ) by {
        if i < tag.name.len() {
            assert(!spec_is_ascii_upper(tag.name[i]));
        }
    }
}

/// Tag tokens come out in lower case: outside the raw states the tokenizer
/// lowers every letter of a tag name and of an attribute name, and in a raw
/// state the end tag is named as the tree constructor named it.
pub proof fn lemma_tokens_are_lower(
    input: Seq<char>,
    pos: int,
    state: State,
    tag: TagView,
    raw_tag: Seq<char>,
)
    requires
        tag_is_lower(tag),
        forall|i: int| 0 <= i < raw_tag.len() ==> !spec_is_ascii_upper(#[trigger] raw_tag[i]),
    ensures
        token_is_lower(scan(input, pos, state, tag, raw_tag).token),
    decreases input.len() - pos,
{
    if pos < 0 || pos >= input.len() {
    } else if is_raw(state) && closes_raw(input, pos, raw_tag) {
    } else {
        let step = lex_step(state, tag, input[pos]);
        lemma_step_keeps_lower(state, tag, input[pos]);
        match step.action {
            Action::Continue(next) => {
                lemma_tokens_are_lower(input, pos + 1, next, step.tag, raw_tag);
            },
            _ => {},
        }
    }
}

struct TagBuilder {
    is_start: bool,
    name: String,
    self_closing: bool,
    attributes: Vec<Attribute>,
}

impl View for TagBuilder {
    type V = TagView;

    closed spec fn view(&self) -> TagView {
        TagView {
            is_start: self.is_start,
            name: self.name@,
            self_closing: self.self_closing,
            attributes: attributes_view(self.attributes@),
        }
    }
}

impl TagBuilder {
    fn blank() -> (r: Self)
        ensures
            r@ == blank_tag(),
    {
        let r = TagBuilder {
            is_start: true,
            name: String::new(),
            self_closing: false,
            attributes: Vec::new(),
        };
        assert(r@.attributes =~= Seq::empty());
        r
    }

    fn begin(&mut self, is_start: bool, c: char)
        ensures
            final(self)@ == tag_begin(is_start, c),
    {
        let mut name = String::new();
        name.push(ascii_lower(c));
        self.is_start = is_start;
        self.name = name;
        self.self_closing = false;
        self.attributes = Vec::new();
        assert(self@.attributes =~= Seq::empty());
        assert(self@.name =~= seq![spec_ascii_lower(c)]);
    }

    fn push_name(&mut self, c: char)
        ensures
            final(self)@ == tag_push_name(old(self)@, c),
    {
        self.name.push(ascii_lower(c));
    }

    fn begin_attribute(&mut self, c: char)
        ensures
            final(self)@ == tag_begin_attribute(old(self)@, c),
    {
        let mut a = Attribute::new();
        a.add_char(ascii_lower(c), true);
        self.attributes.push(a);
        assert(a@.name =~= seq![spec_ascii_lower(c)]);
        assert(self@.attributes =~= tag_begin_attribute(old(self)@, c).attributes);
    }

    fn push_attribute(&mut self, c: char, is_name: bool)
        ensures
            final(self)@ == tag_push_attribute(old(self)@, c, is_name),
    {
        let n: usize = self.attributes.len();
        if n > 0 {
            self.attributes[n - 1].add_char(c, is_name);
            assert(self@.attributes =~= tag_push_attribute(old(self)@, c, is_name).attributes);
        }
    }

    fn set_self_closing(&mut self)
        ensures
            final(self)@ == (TagView { self_closing: true, ..old(self)@ }),
    {
        self.self_closing = true;
    }

    fn into_token(self) -> (r: HtmlToken)
        ensures
            r@ == tag_token(self@),
    {
        if self.is_start {
            HtmlToken::StartTag {
                tag: self.name,
                self_closing: self.self_closing,
                attributes: self.attributes,
            }
        } else {
            HtmlToken::EndTag { tag: self.name }
        }
    }

    fn between_attributes(&mut self, c: char) -> (a: Action)
        ensures
            a == step_between_attributes(old(self)@, c).action,
            final(self)@ == step_between_attributes(old(self)@, c).tag,
    {
        if c == '/' {
            Action::Continue(State::SelfClosingStartTag)
        } else if c == '>' {
            Action::EmitTag(State::Data)
        } else {
            self.begin_attribute(c);
            Action::Continue(State::AttributeName)
        }
    }

    fn before_attribute_name(&mut self, c: char) -> (a: Action)
        ensures
            a == step_before_attribute_name(old(self)@, c).action,
            final(self)@ == step_before_attribute_name(old(self)@, c).tag,
    {
        if is_whitespace(c) {
            Action::Continue(State::BeforeAttributeName)
        } else {
            self.between_attributes(c)
        }
    }

    /// One step of the transition table.
    fn step(&mut self, state: State, c: char) -> (a: Action)
        ensures
            a == lex_step(state, old(self)@, c).action,
            final(self)@ == lex_step(state, old(self)@, c).tag,
    {
        match state {
            State::Data => {
                if c == '<' {
                    Action::Continue(State::TagOpen)
                } else {
                    Action::EmitChar { c, state: State::Data, consumed: true }
                }
            },
            State::TagOpen => {
                if c == '/' {
                    Action::Continue(State::EndTagOpen)
                } else if is_ascii_alpha(c) {
                    self.begin(true, c);
                    Action::Continue(State::TagName)
                } else {
                    Action::EmitChar { c: '<', state: State::Data, consumed: false }
                }
            },
            State::EndTagOpen => {
                if is_ascii_alpha(c) {
                    self.begin(false, c);
                    Action::Continue(State::TagName)
                } else {
                    Action::Continue(State::Data)
                }
            },
            State::TagName => {
                if is_whitespace(c) {
                    Action::Continue(State::BeforeAttributeName)
                } else if c == '/' {
                    Action::Continue(State::SelfClosingStartTag)
                } else if c == '>' {
                    Action::EmitTag(State::Data)
                } else {
                    self.push_name(c);
                    Action::Continue(State::TagName)
                }
            },
            State::BeforeAttributeName => self.before_attribute_name(c),
            State::AttributeName => {
                if is_whitespace(c) {
                    Action::Continue(State::AfterAttributeName)
                } else if c == '=' {
                    Action::Continue(State::BeforeAttributeValue)
                } else if c == '/' {
                    Action::Continue(State::SelfClosingStartTag)
                } else if c == '>' {
                    Action::EmitTag(State::Data)
                } else {
                    self.push_attribute(ascii_lower(c), true);
                    Action::Continue(State::AttributeName)
                }
            },
            State::AfterAttributeName => {
                if is_whitespace(c) {
                    Action::Continue(State::AfterAttributeName)
                } else if c == '=' {
                    Action::Continue(State::BeforeAttributeValue)
                } else {
                    self.between_attributes(c)
                }
            },
            State::BeforeAttributeValue => {
                if is_whitespace(c) {
                    Action::Continue(State::BeforeAttributeValue)
                } else if c == '"' {
                    Action::Continue(State::AttributeValueDoubleQuoted)
                } else if c == '\'' {
                    Action::Continue(State::AttributeValueSingleQuoted)
                } else if c == '>' {
                    Action::EmitTag(State::Data)
                } else {
                    self.push_attribute(c, false);
                    Action::Continue(State::AttributeValueUnquoted)
                }
            },
            State::AttributeValueDoubleQuoted => {
                if c == '"' {
                    Action::Continue(State::AfterAttributeValueQuoted)
                } else {
                    self.push_attribute(c, false);
                    Action::Continue(State::AttributeValueDoubleQuoted)
                }
            },
            State::AttributeValueSingleQuoted => {
                if c == '\'' {
                    Action::Continue(State::AfterAttributeValueQuoted)
                } else {
                    self.push_attribute(c, false);
                    Action::Continue(State::AttributeValueSingleQuoted)
                }
            },
            State::AttributeValueUnquoted => {
                if is_whitespace(c) {
                    Action::Continue(State::BeforeAttributeName)
                } else if c == '>' {
                    Action::EmitTag(State::Data)
                } else {
                    self.push_attribute(c, false);
                    Action::Continue(State::AttributeValueUnquoted)
                }
            },
            State::AfterAttributeValueQuoted => self.before_attribute_name(c),
            State::SelfClosingStartTag => {
                if c == '>' {
                    self.set_self_closing();
                    Action::EmitTag(State::Data)
                } else {
                    self.before_attribute_name(c)
                }
            },
            State::ScriptData => Action::EmitChar { c, state, consumed: true },
            State::Rawtext => Action::EmitChar { c, state, consumed: true },
        }
    }
}

/// A scanner over the characters of one document.
#[derive(Debug)]
pub struct HtmlTokenizer {
    input: Vec<char>,
    pos: usize,
    state: State,
    raw_tag: Vec<char>,
    finished: bool,
}

impl View for HtmlTokenizer {
    type V = LexView;

    closed spec fn view(&self) -> LexView {
        LexView {
            input: self.input@,
            pos: self.pos as int,
            state: self.state,
            raw_tag: self.raw_tag@,
            finished: self.finished,
        }
    }
}

impl Clone for HtmlTokenizer {
    fn clone(&self) -> (r: Self)
        ensures
            r@ == self@,
    {
        HtmlTokenizer {
            input: self.input.clone(),
            pos: self.pos,
            state: self.state,
            raw_tag: self.raw_tag.clone(),
            finished: self.finished,
        }
    }
}

impl HtmlTokenizer {
    /// A tokenizer at the start of `html`.
    pub fn new(html: String) -> (t: Self)
        ensures
            t@ == lex_start(html@),
    {
        HtmlTokenizer {
            input: to_chars(html.as_str()),
            pos: 0,
            state: State::Data,
            raw_tag: Vec::new(),
            finished: false,
        }
    }

    /// Switches to raw text: from here on every character leaves as it is,
    /// until the input reads the end tag named `tag_name`.
    pub fn enter_rawtext(&mut self, tag_name: &str)
        ensures
            final(self)@ == lex_enter_rawtext(old(self)@, tag_name@),
    {
        self.raw_tag = to_chars(tag_name);
        if same_text(tag_name, "script") {
            self.state = State::ScriptData;
        } else {
            self.state = State::Rawtext;
        }
    }

    /// Whether the input at the current position reads the raw end tag.
    fn at_raw_end_tag(&self) -> (r: bool)
        requires
            self.pos < self.input.len(),
        ensures
            r == closes_raw(self.input@, self.pos as int, self.raw_tag@),
    {
        let left: usize = self.input.len() - self.pos;
        let n: usize = self.raw_tag.len();
        if left < 3 || left - 3 < n {
            return false;
        }
        if self.input[self.pos] != '<' || self.input[self.pos + 1] != '/' {
            return false;
        }
        if self.input[self.pos + 2 + n] != '>' {
            return false;
        }
        let mut i: usize = 0;
        while i < n
            invariant
                i <= n,
                n == self.raw_tag.len(),
                self.pos + n + 3 <= self.input.len(),
                forall|j: int|
                    0 <= j < i ==> spec_ascii_lower(self.input@[self.pos + 2 + j])
                        == #[trigger] self.raw_tag@[j],
            decreases n - i,
        {
            if ascii_lower(self.input[self.pos + 2 + i]) != self.raw_tag[i] {
                return false;
            }
            i = i + 1;
        }
        true
    }

    /// The raw end tag as a token.
    fn raw_end_tag(&self) -> (r: HtmlToken)
        ensures
            r@ == (TokenView::EndTag { tag: self.raw_tag@ }),
    {
        let mut tag = String::new();
        let mut i: usize = 0;
        while i < self.raw_tag.len()
            invariant
                i <= self.raw_tag.len(),
                tag@ == self.raw_tag@.subrange(0, i as int),
            decreases self.raw_tag.len() - i,
        {
            tag.push(self.raw_tag[i]);
            i = i + 1;
        }
        assert(tag@ == self.raw_tag@);
        HtmlToken::EndTag { tag }
    }

    /// Hands out the next token. After `Eof` has left, every further call
    /// returns `None` and changes nothing.
    pub fn next(&mut self) -> (r: Option<HtmlToken>)
        ensures
            token_view(r) == lex_next(old(self)@).0,
            final(self)@ == lex_next(old(self)@).1,
    {
        if self.finished {
            return None;
        }
        let mut tag = TagBuilder::blank();
        let ghost goal = scan(old(self)@.input, old(self)@.pos, old(self)@.state, blank_tag(), old(self)@.raw_tag);
        loop
            invariant
                self.input == old(self).input,
                self.raw_tag == old(self).raw_tag,
                !self.finished,
                scan(self.input@, self.pos as int, self.state, tag@, self.raw_tag@) == goal,
                goal == scan(
                    old(self)@.input,
                    old(self)@.pos,
                    old(self)@.state,
                    blank_tag(),
                    old(self)@.raw_tag,
                ),
                !old(self).finished,
            decreases self.input.len() - self.pos,
        {
            if self.pos >= self.input.len() {
                if self.state == State::TagOpen {
                    self.state = State::Data;
                    return Some(HtmlToken::Char('<'));
                }
                self.state = State::Data;
                self.finished = true;
                return Some(HtmlToken::Eof);
            }
            let raw: bool = self.state == State::ScriptData || self.state == State::Rawtext;
            if raw && self.at_raw_end_tag() {
                let token = self.raw_end_tag();
                self.pos = self.pos + self.raw_tag.len() + 3;
                self.state = State::Data;
                return Some(token);
            }
            let c: char = self.input[self.pos];
            match tag.step(self.state, c) {
                Action::Continue(next) => {
                    self.pos = self.pos + 1;
                    self.state = next;
                },
                Action::EmitChar { c: out, state: next, consumed } => {
                    if consumed {
                        self.pos = self.pos + 1;
                    }
                    self.state = next;
                    return Some(HtmlToken::Char(out));
                },
                Action::EmitTag(next) => {
                    self.pos = self.pos + 1;
                    self.state = next;
                    return Some(tag.into_token());
                },
            }
        }
    }
}

} // verus!

