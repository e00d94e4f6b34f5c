//! The document parser: a state machine over XML events that builds contexts, brushes
//! and trace records, and the canonicalizer that turns its result into physical units.
use vstd::prelude::*;

use crate::brushes::{Brush, BrushView};
use crate::context::{channel_from, last_channel, Channel, Context, ContextView};
use crate::number::{number_of, parse_number};
use crate::trace_data::TraceData;
use crate::vocab::{ChannelKind, ChannelType, ResolutionUnits};
use crate::error::{InkError, VocabularyKind};
use crate::number::{int_of, pow10, Decimal};
use crate::trace_data::{
    lemma_decoded_columns, uniform, column_views, initial_state, lex_payload, scaled_column, ChannelData, Column, FormattedStroke,
};
use crate::context::{first_channel, scaling_of};
use crate::trace_data::ChannelDataEl;
use crate::number::Rational;
use crate::vocab::{
    convert_spec, kind_named, lookup, resolution_unit_named, unit_named, ChannelUnit,
};
use crate::text::{chars_of, opt_view, string_of};
use crate::xml_helpers::{
    attr_value, get_id, get_ids, read_xml_events, resolution_property, verify_channel_properties,
    xml_events_of, XmlAttribute, XmlEvent,
};

verus! {

/// Which element opened the current context.
#[derive(Clone, Copy, Debug, PartialEq, Eq, Structural)]
pub enum ContextStartElement {
    TraceFormat,
    Context,
}

/// One trace record: the context id, the brush id and the samples, one entry per channel.
pub type TraceRecordView = (Seq<char>, Seq<char>, Seq<Column>);

/// The content of the parser's state.
pub struct ParserView {
    pub is_trace: bool,
    pub contexts: Seq<ContextView>,
    pub current_context: Option<Seq<char>>,
    pub start_element: Option<ContextStartElement>,
    pub current_brush: Option<Seq<char>>,
    pub brushes: Seq<BrushView>,
    pub traces: Seq<TraceRecordView>,
}

impl ParserView {
    pub open spec fn wf(self) -> bool {
        &&& forall|i: int| 0 <= i < self.contexts.len() ==> (#[trigger] self.contexts[i]).wf()
        &&& forall|i: int| 0 <= i < self.brushes.len() ==> (#[trigger] self.brushes[i]).wf()
        &&& forall|i: int| 0 <= i < self.traces.len() ==> record_wf(#[trigger] self.traces[i])
    }
}

/// Whether every column of a record is well formed, all with the same number of samples.
pub open spec fn record_wf(t: TraceRecordView) -> bool {
    &&& forall|k: int| 0 <= k < t.2.len() ==> (#[trigger] t.2[k]).wf()
    &&& uniform(t.2)
}

/// The state before the first event.
pub open spec fn initial_parser() -> ParserView {
    ParserView {
        is_trace: false,
        contexts: Seq::empty(),
        current_context: None,
        start_element: None,
        current_brush: None,
        brushes: Seq::empty(),
        traces: Seq::empty(),
    }
}

/// The position of the first context named `name` from `i` on, or -1.
pub open spec fn ctx_pos(cs: Seq<ContextView>, name: Seq<char>, i: int) -> int
    decreases cs.len() - i,
{
    if i < 0 || i >= cs.len() {
        -1
    } else if cs[i].name == name {
        i
    } else {
        ctx_pos(cs, name, i + 1)
    }
}

/// The position of the first brush named `name` from `i` on, or -1.
pub open spec fn brush_pos(bs: Seq<BrushView>, name: Seq<char>, i: int) -> int
    decreases bs.len() - i,
{
    if i < 0 || i >= bs.len() {
        -1
    } else if bs[i].name == name {
        i
    } else {
        brush_pos(bs, name, i + 1)
    }
}

pub open spec fn or_default(o: Option<Seq<char>>, d: Seq<char>) -> Seq<char> {
    match o {
        Some(v) => v,
        None => d,
    }
}

/// A reference with its leading `#` removed.
pub open spec fn strip_hash(s: Seq<char>) -> Seq<char> {
    if s.len() > 0 && s[0] == '#' {
        s.drop_first()
    } else {
        s
    }
}

/// The values of the attributes named `names`, in order.
pub open spec fn attrs_named(attrs: Seq<XmlAttribute>, names: Seq<Seq<char>>) -> Seq<
    Option<Seq<char>>,
> {
    Seq::new(names.len(), |k: int| attr_value(attrs, names[k]))
}

pub open spec fn hex_value(c: char) -> Option<int> {
    if '0' <= c && c <= '9' {
        Some(c as int - '0' as int)
    } else if 'a' <= c && c <= 'f' {
        Some(c as int - 'a' as int + 10)
    } else if 'A' <= c && c <= 'F' {
        Some(c as int - 'A' as int + 10)
    } else {
        None
    }
}

/// The byte written by the two hex digits at `s[i]` and `s[i + 1]`.
pub open spec fn hex_byte(s: Seq<char>, i: int) -> Option<u8> {
    match (hex_value(s[i]), hex_value(s[i + 1])) {
        (Some(a), Some(b)) => Some((a * 16 + b) as u8),
        _ => None,
    }
}

/// The color written `#RRGGBB`, in either case.
pub open spec fn color_of(s: Seq<char>) -> Option<(u8, u8, u8)> {
    if s.len() == 7 && s[0] == '#' {
        match (hex_byte(s, 1), hex_byte(s, 3), hex_byte(s, 5)) {
            (Some(r), Some(g), Some(b)) => Some((r, g, b)),
            _ => None,
        }
    } else {
        None
    }
}

/// A transparency: an unsigned integer up to 65535, clamped to 255.
pub open spec fn transparency_of(s: Seq<char>) -> Option<u8> {
    if s.len() > 0 && s[0] == '-' {
        None
    } else {
        match int_of(s) {
            Some(v) => if 0 <= v <= 65535 {
                Some(
                    if v > 255 {
                        255u8
                    } else {
                        v as u8
                    },
                )
            } else {
                None
            },
            None => None,
        }
    }
}

/// `1` and `true` are true, `0` and `false` false.
pub open spec fn bool_of(s: Seq<char>) -> Option<bool> {
    if s == "1"@ || s == "true"@ {
        Some(true)
    } else if s == "0"@ || s == "false"@ {
        Some(false)
    } else {
        None
    }
}

/// The brush a `<brush>` element starts from.
pub open spec fn init_brush_view(id: Seq<char>) -> BrushView {
    BrushView {
        name: id,
        color: (0u8, 0u8, 0u8),
        stroke_width: Decimal { mantissa: 0, scale: 0 },
        ignorepressure: false,
        transparency: 0,
    }
}

/// The brush given to traces of a document that defines none: white, 0.1 cm, pressure ignored.
pub open spec fn default_brush_view() -> BrushView {
    BrushView {
        name: "br0"@,
        color: (255u8, 255u8, 255u8),
        stroke_width: Decimal { mantissa: 1, scale: 1 },
        ignorepressure: true,
        transparency: 0,
    }
}

/// `<context>`: a new, empty context becomes current.
pub open spec fn start_context(st: ParserView, attrs: Seq<XmlAttribute>) -> Result<
    ParserView,
    InkError,
> {
    let id = or_default(attr_value(attrs, "id"@), "ctx0"@);
    if ctx_pos(st.contexts, id, 0) >= 0 {
        Err(InkError::DuplicateContext)
    } else {
        Ok(
            ParserView {
                contexts: st.contexts.push(ContextView { name: id, channels: Seq::empty() }),
                current_context: Some(id),
                start_element: Some(ContextStartElement::Context),
                ..st
            },
        )
    }
}

/// `<traceFormat>`: in a document without contexts, opens the context `ctx0`.
pub open spec fn start_trace_format(st: ParserView) -> ParserView {
    if st.contexts.len() == 0 {
        ParserView {
            contexts: seq![ContextView { name: "ctx0"@, channels: Seq::empty() }],
            current_context: Some("ctx0"@),
            start_element: Some(ContextStartElement::TraceFormat),
            ..st
        }
    } else {
        st
    }
}

pub open spec fn channel_attr_names() -> Seq<Seq<char>> {
    seq!["name"@, "type"@, "units"@, "max"@]
}

pub open spec fn property_attr_names() -> Seq<Seq<char>> {
    seq!["channel"@, "name"@, "value"@, "units"@]
}

/// `<channel>`: appends a channel to the current context.
pub open spec fn start_channel(st: ParserView, attrs: Seq<XmlAttribute>) -> Result<
    ParserView,
    InkError,
> {
    match st.current_context {
        None => Ok(st),
        Some(c) => {
            let i = ctx_pos(st.contexts, c, 0);
            if i < 0 {
                Err(InkError::UnknownContext)
            } else {
                match channel_from(attrs_named(attrs, channel_attr_names())) {
                    Err(e) => Err(e),
                    Ok(ch) => Ok(
                        ParserView {
                            contexts: st.contexts.update(
                                i,
                                ContextView {
                                    channels: st.contexts[i].channels.push(ch),
                                    ..st.contexts[i]
                                },
                            ),
                            ..st
                        },
                    ),
                }
            }
        },
    }
}

/// `<channelProperty>`: sets the resolution of a channel of the current context.
pub open spec fn start_channel_property(st: ParserView, attrs: Seq<XmlAttribute>) -> Result<
    ParserView,
    InkError,
> {
    let ids = attrs_named(attrs, property_attr_names());
    if !(resolution_property(ids) && st.current_context is Some && ctx_pos(
        st.contexts,
        st.current_context->Some_0,
        0,
    ) >= 0) {
        Ok(st)
    } else {
        let i = ctx_pos(st.contexts, st.current_context->Some_0, 0);
        match lookup(ids[0], |s| kind_named(s), VocabularyKind::Kind) {
            Err(e) => Err(e),
            Ok(kind) => match lookup(
                ids[3],
                |s| resolution_unit_named(s),
                VocabularyKind::ResolutionUnit,
            ) {
                Err(e) => Err(e),
                Ok(ru) => match number_of(ids[2]->Some_0) {
                    None => Err(InkError::InvalidNumber),
                    Some(v) => match last_channel(st.contexts[i].channels, kind) {
                        None => Err(InkError::MissingChannel),
                        Some(j) => {
                            let ch = st.contexts[i].channels[j];
                            Ok(
                                ParserView {
                                    contexts: st.contexts.update(
                                        i,
                                        ContextView {
                                            channels: st.contexts[i].channels.update(
                                                j,
                                                Channel {
                                                    resolution_value: v,
                                                    unit_resolution: ru,
                                                    ..ch
                                                },
                                            ),
                                            ..st.contexts[i]
                                        },
                                    ),
                                    ..st
                                },
                            )
                        },
                    },
                },
            },
        }
    }
}

/// `<brush>`: a new brush with the starting properties becomes current.
pub open spec fn start_brush(st: ParserView, attrs: Seq<XmlAttribute>) -> Result<
    ParserView,
    InkError,
> {
    let id = or_default(attr_value(attrs, "id"@), "br0"@);
    if brush_pos(st.brushes, id, 0) >= 0 {
        Err(InkError::DuplicateBrush)
    } else {
        Ok(
            ParserView {
                current_brush: Some(id),
                brushes: st.brushes.push(init_brush_view(id)),
                ..st
            },
        )
    }
}

/// The effect of one `<brushProperty>` on brush `b`.
pub open spec fn brush_property(b: BrushView, attrs: Seq<XmlAttribute>) -> Result<
    BrushView,
    InkError,
> {
    match attr_value(attrs, "name"@) {
        None => Err(InkError::MissingAttribute),
        Some(p) => if p == "width"@ || p == "height"@ {
            match attr_value(attrs, "units"@) {
                None => Err(InkError::MissingAttribute),
                Some(u) => match unit_named(u) {
                    None => Err(InkError::InvalidVocabulary(VocabularyKind::Unit)),
                    Some(unit) => match attr_value(attrs, "value"@) {
                        None => Err(InkError::MissingAttribute),
                        Some(v) => match number_of(v) {
                            None => Err(InkError::InvalidNumber),
                            Some(d) => match convert_spec(unit, ChannelUnit::cm, d) {
                                Err(e) => Err(e),
                                Ok(w) => Ok(
                                    BrushView {
                                        stroke_width: if b.stroke_width.less_than(w) {
                                            w
                                        } else {
                                            b.stroke_width
                                        },
                                        ..b
                                    },
                                ),
                            },
                        },
                    },
                },
            }
        } else if p == "color"@ {
            match attr_value(attrs, "value"@) {
                None => Err(InkError::MissingAttribute),
                Some(v) => match color_of(v) {
                    None => Err(InkError::InvalidColor),
                    Some(c) => Ok(BrushView { color: c, ..b }),
                },
            }
        } else if p == "transparency"@ {
            match attr_value(attrs, "value"@) {
                None => Err(InkError::MissingAttribute),
                Some(v) => match transparency_of(v) {
                    None => Err(InkError::InvalidNumber),
                    Some(t) => Ok(BrushView { transparency: t, ..b }),
                },
            }
        } else if p == "ignorePressure"@ {
            match attr_value(attrs, "value"@) {
                None => Err(InkError::MissingAttribute),
                Some(v) => match bool_of(v) {
                    None => Err(InkError::InvalidBoolean),
                    Some(f) => Ok(BrushView { ignorepressure: f, ..b }),
                },
            }
        } else {
            Ok(b)
        },
    }
}

/// `<brushProperty>`: changes the current brush.
pub open spec fn start_brush_property(st: ParserView, attrs: Seq<XmlAttribute>) -> Result<
    ParserView,
    InkError,
> {
    match st.current_brush {
        None => Err(InkError::MalformedDocument),
        Some(id) => {
            let i = brush_pos(st.brushes, id, 0);
            if i < 0 {
                Err(InkError::MalformedDocument)
            } else {
                match brush_property(st.brushes[i], attrs) {
                    Err(e) => Err(e),
                    Ok(b) => Ok(ParserView { brushes: st.brushes.update(i, b), ..st }),
                }
            }
        },
    }
}

/// `<trace>`: selects the context and the brush of the trace.
pub open spec fn start_trace(st: ParserView, attrs: Seq<XmlAttribute>) -> Result<
    ParserView,
    InkError,
> {
    let ctx = match attr_value(attrs, "contextRef"@) {
        Some(c) => strip_hash(c),
        None => "ctx0"@,
    };
    let st1 = ParserView { is_trace: true, current_context: Some(ctx), ..st };
    match attr_value(attrs, "brushRef"@) {
        Some(b) => {
            let id = strip_hash(b);
            if brush_pos(st.brushes, id, 0) < 0 {
                Err(InkError::MissingBrush)
            } else {
                Ok(ParserView { current_brush: Some(id), ..st1 })
            }
        },
        None => if st.brushes.len() == 0 {
            Ok(ParserView { current_brush: None, ..st1 })
        } else if st.brushes.len() == 1 {
            Ok(ParserView { current_brush: Some(st.brushes[0].name), ..st1 })
        } else {
            Err(InkError::AmbiguousBrush)
        },
    }
}

pub open spec fn start_element(st: ParserView, name: Seq<char>, attrs: Seq<XmlAttribute>) -> Result<
    ParserView,
    InkError,
> {
    if name == "context"@ {
        start_context(st, attrs)
    } else if name == "traceFormat"@ {
        Ok(start_trace_format(st))
    } else if name == "channel"@ {
        start_channel(st, attrs)
    } else if name == "channelProperty"@ {
        start_channel_property(st, attrs)
    } else if name == "brush"@ {
        start_brush(st, attrs)
    } else if name == "brushProperty"@ {
        start_brush_property(st, attrs)
    } else if name == "trace"@ {
        start_trace(st, attrs)
    } else {
        Ok(st)
    }
}

/// The width a brush is closed with: a width of zero becomes 0.1 cm.
pub open spec fn closed_width(w: Decimal) -> Decimal {
    if w.mantissa == 0 {
        Decimal { mantissa: 1, scale: 1 }
    } else {
        w
    }
}

pub open spec fn end_element(st: ParserView, name: Seq<char>) -> Result<ParserView, InkError> {
    if name == "context"@ {
        Ok(ParserView { current_context: None, start_element: None, ..st })
    } else if name == "traceFormat"@ {
        if st.start_element == Some(ContextStartElement::TraceFormat) {
            Ok(ParserView { current_context: None, start_element: None, ..st })
        } else {
            Ok(st)
        }
    } else if name == "trace"@ {
        Ok(ParserView { is_trace: false, current_context: None, current_brush: None, ..st })
    } else if name == "brush"@ {
        match st.current_brush {
            None => Err(InkError::MalformedDocument),
            Some(id) => {
                let i = brush_pos(st.brushes, id, 0);
                if i < 0 {
                    Err(InkError::MalformedDocument)
                } else {
                    Ok(
                        ParserView {
                            brushes: st.brushes.update(
                                i,
                                BrushView {
                                    stroke_width: closed_width(st.brushes[i].stroke_width),
                                    ..st.brushes[i]
                                },
                            ),
                            current_brush: None,
                            ..st
                        },
                    )
                }
            },
        }
    } else {
        Ok(st)
    }
}

/// The column types of a context, in order.
pub open spec fn column_types(c: ContextView) -> Seq<crate::vocab::ChannelType> {
    c.channels.map_values(|ch: Channel| ch.types)
}

/// Text inside a trace: decodes the payload with the current context's column types and
/// records it under the current brush (a default brush when the document defines none).
pub open spec fn characters(st: ParserView, text: Seq<char>) -> Result<ParserView, InkError> {
    if !st.is_trace {
        Ok(st)
    } else {
        match st.current_context {
            None => Err(InkError::MalformedDocument),
            Some(c) => {
                let i = ctx_pos(st.contexts, c, 0);
                if i < 0 {
                    Err(InkError::UnknownContext)
                } else {
                    match lex_payload(initial_state(column_types(st.contexts[i])), text, 0) {
                        Err(e) => Err(e),
                        Ok(ls) => {
                            let (brushes, brush) = match st.current_brush {
                                Some(b) => (st.brushes, Some(b)),
                                None => if st.brushes.len() == 0 {
                                    (st.brushes.push(default_brush_view()), Some("br0"@))
                                } else if brush_pos(st.brushes, "br0"@, 0) >= 0 {
                                    (st.brushes, Some("br0"@))
                                } else {
                                    (st.brushes, None)
                                },
                            };
                            match brush {
                                None => Err(InkError::MissingBrush),
                                Some(b) => Ok(
                                    ParserView {
                                        brushes,
                                        traces: st.traces.push((c, b, ls.data)),
                                        current_context: None,
                                        current_brush: None,
                                        ..st
                                    },
                                ),
                            }
                        },
                    }
                }
            },
        }
    }
}

/// The effect of one XML event.
#[verifier::opaque]
pub open spec fn step(st: ParserView, ev: XmlEvent) -> Result<ParserView, InkError> {
    match ev {
        XmlEvent::StartElement(name, attrs) => start_element(st, name@, attrs@),
        XmlEvent::EndElement(name) => end_element(st, name@),
        XmlEvent::Characters(t) => characters(st, t@),
        XmlEvent::Failure(m) => Err(InkError::XmlError(m)),
        XmlEvent::Other => Ok(st),
    }
}

/// The state after the events from `i` on.
pub open spec fn run(st: ParserView, evs: Seq<XmlEvent>, i: int) -> Result<ParserView, InkError>
    decreases evs.len() - i,
{
    if i < 0 || i >= evs.len() {
        Ok(st)
    } else {
        match step(st, evs[i]) {
            Ok(s2) => run(s2, evs, i + 1),
            Err(e) => Err(e),
        }
    }
}

pub open spec fn record_view(t: (String, String, Vec<ChannelData>)) -> TraceRecordView {
    (t.0@, t.1@, column_views(t.2@))
}

pub open spec fn context_views(v: Seq<Context>) -> Seq<ContextView> {
    v.map_values(|c: Context| c@)
}

pub open spec fn brush_views(v: Seq<Brush>) -> Seq<BrushView> {
    v.map_values(|b: Brush| b@)
}

pub open spec fn record_views(v: Seq<(String, String, Vec<ChannelData>)>) -> Seq<TraceRecordView> {
    v.map_values(|t: (String, String, Vec<ChannelData>)| record_view(t))
}

/// The state after setting the resolution of channel `j` of context `i`.
pub open spec fn final_resolution_view(
    st: ParserView,
    i: int,
    j: int,
    v: Decimal,
    ru: ResolutionUnits,
) -> ParserView {
    ParserView {
        contexts: st.contexts.update(
            i,
            ContextView {
                channels: st.contexts[i].channels.update(
                    j,
                    Channel { resolution_value: v, unit_resolution: ru, ..st.contexts[i].channels[j] },
                ),
                ..st.contexts[i]
            },
        ),
        ..st
    }
}

/// The parser's state between two events.
struct ParserContext {
    is_trace: bool,
    context: Vec<Context>,
    current_context_id: Option<String>,
    start_context_element: Option<ContextStartElement>,
    current_brush_id: Option<String>,
    brushes: Vec<Brush>,
    traces: Vec<(String, String, Vec<ChannelData>)>,
}

impl View for ParserContext {
    type V = ParserView;

    closed spec fn view(&self) -> ParserView {
        ParserView {
            is_trace: self.is_trace,
            contexts: context_views(self.context@),
            current_context: opt_view(self.current_context_id),
            start_element: self.start_context_element,
            current_brush: opt_view(self.current_brush_id),
            brushes: brush_views(self.brushes@),
            traces: record_views(self.traces@),
        }
    }
}

/// `o`, or the text `d` when it is absent.
fn or_default_exec(o: Option<String>, d: &str) -> (r: String)
    ensures
        r@ == or_default(opt_view(o), d@),
{
    match o {
        Some(v) => v,
        None => d.to_owned(),
    }
}

/// `s` without its leading `#`.
fn strip_hash_exec(s: &String) -> (r: String)
    ensures
        r@ == strip_hash(s@),
{
    let cs = chars_of(s.as_str());
    if cs.len() > 0 && cs[0] == '#' {
        let mut out: Vec<char> = Vec::new();
        let mut i: usize = 1;
        while i < cs.len()
            invariant
                1 <= i <= cs@.len(),
                out@ == cs@.subrange(1, i as int),
            decreases cs@.len() - i,
        {
            out.push(cs[i]);
            i = i + 1;
            assert(out@ =~= cs@.subrange(1, i as int));
        }
        assert(out@ =~= s@.drop_first());
        string_of(&out)
    } else {
        s.clone()
    }
}

fn hex_exec(c: char) -> (r: Option<u8>)
    ensures
        match hex_value(c) {
            Some(v) => r == Some(v as u8) && 0 <= v < 16,
            None => r is None,
        },
{
    if '0' <= c && c <= '9' {
        Some((c as u32 - '0' as u32) as u8)
    } else if 'a' <= c && c <= 'f' {
        Some((c as u32 - 'a' as u32 + 10) as u8)
    } else if 'A' <= c && c <= 'F' {
        Some((c as u32 - 'A' as u32 + 10) as u8)
    } else {
        None
    }
}

fn hex_byte_exec(s: &Vec<char>, i: usize) -> (r: Option<u8>)
    requires
        i <= 5,
        i + 1 < s@.len(),
    ensures
        r == hex_byte(s@, i as int),
{
    match (hex_exec(s[i]), hex_exec(s[i + 1])) {
        (Some(a), Some(b)) => Some(a * 16 + b),
        _ => None,
    }
}

/// Reads a color written `#RRGGBB`.
pub fn parse_color(v: &String) -> (r: Option<(u8, u8, u8)>)
    ensures
        r == color_of(v@),
{
    let s = chars_of(v.as_str());
    if s.len() == 7 && s[0] == '#' {
        match (hex_byte_exec(&s, 1), hex_byte_exec(&s, 3), hex_byte_exec(&s, 5)) {
            (Some(r), Some(g), Some(b)) => Some((r, g, b)),
            _ => None,
        }
    } else {
        None
    }
}

/// Reads a transparency: an unsigned integer up to 65535, clamped to 255.
pub fn parse_transparency(v: &String) -> (r: Option<u8>)
    ensures
        r == transparency_of(v@),
{
    let s = chars_of(v.as_str());
    if s.len() > 0 && s[0] == '-' {
        return None;
    }
    match crate::number::parse_int(&s) {
        Some(x) => {
            if 0 <= x && x <= 65535 {
                Some(
                    if x > 255 {
                        255u8
                    } else {
                        x as u8
                    },
                )
            } else {
                None
            }
        },
        None => None,
    }
}

/// Reads a boolean property: `1` or `true`, `0` or `false`.
pub fn parse_flag(v: &String) -> (r: Option<bool>)
    ensures
        r == bool_of(v@),
{
    let s = v.as_str();
    if crate::text::str_is(s, "1") || crate::text::str_is(s, "true") {
        Some(true)
    } else if crate::text::str_is(s, "0") || crate::text::str_is(s, "false") {
        Some(false)
    } else {
        None
    }
}

impl ParserContext {
    fn new() -> (r: ParserContext)
        ensures
            r@ == initial_parser(),
    {
        let r = ParserContext {
            is_trace: false,
            context: Vec::new(),
            current_context_id: None,
            start_context_element: None,
            current_brush_id: None,
            brushes: Vec::new(),
            traces: Vec::new(),
        };
        assert(r@.contexts =~= Seq::<ContextView>::empty());
        assert(r@.brushes =~= Seq::<BrushView>::empty());
        assert(r@.traces =~= Seq::<TraceRecordView>::empty());
        r
    }

    fn find_context(&self, name: &String) -> (r: Option<usize>)
        ensures
            match r {
                Some(i) => ctx_pos(self@.contexts, name@, 0) == i as int && i < self@.contexts.len(),
                None => ctx_pos(self@.contexts, name@, 0) == -1,
            },
    {
        let ghost cs = self@.contexts;
        let mut i: usize = 0;
        while i < self.context.len()
            invariant
                i <= self.context@.len(),
                cs == self@.contexts,
                ctx_pos(cs, name@, i as int) == ctx_pos(cs, name@, 0),
            decreases self.context@.len() - i,
        {
            if self.context[i].name == *name {
                return Some(i);
            }
            i = i + 1;
        }
        None
    }

    fn find_brush(&self, name: &String) -> (r: Option<usize>)
        ensures
            match r {
                Some(i) => brush_pos(self@.brushes, name@, 0) == i as int && i < self@.brushes.len(),
                None => brush_pos(self@.brushes, name@, 0) == -1,
            },
    {
        let ghost bs = self@.brushes;
        let mut i: usize = 0;
        while i < self.brushes.len()
            invariant
                i <= self.brushes@.len(),
                bs == self@.brushes,
                brush_pos(bs, name@, i as int) == brush_pos(bs, name@, 0),
            decreases self.brushes@.len() - i,
        {
            if self.brushes[i].name == *name {
                return Some(i);
            }
            i = i + 1;
        }
        None
    }

    fn start_context(&mut self, attrs: &Vec<XmlAttribute>) -> (r: Result<(), InkError>)
        requires
            old(self)@.wf(),
        ensures
            match start_context(old(self)@, attrs@) {
                Ok(s) => r is Ok && final(self)@ == s && s.wf(),
                Err(e) => r == Err::<(), InkError>(e),
            },
    {
        let id = or_default_exec(get_id(attrs, "id"), "ctx0");
        if self.find_context(&id).is_some() {
            return Err(InkError::DuplicateContext);
        }
        let ghost old_cs = self@.contexts;
        self.context.push(Context::create_empty(id.clone()));
        self.current_context_id = Some(id);
        self.start_context_element = Some(ContextStartElement::Context);
        proof {
            let s = start_context(old(self)@, attrs@)->Ok_0;
            assert(self.context@[old_cs.len() as int].channel_list@ =~= Seq::<Channel>::empty());
            assert(self@.contexts =~= s.contexts);
        }
        Ok(())
    }

    fn start_trace_format(&mut self)
        requires
            old(self)@.wf(),
        ensures
            final(self)@ == start_trace_format(old(self)@),
            final(self)@.wf(),
    {
        if self.context.len() == 0 {
            self.context.push(Context::create_empty("ctx0".to_owned()));
            self.current_context_id = Some("ctx0".to_owned());
            self.start_context_element = Some(ContextStartElement::TraceFormat);
            assert(self.context@[0].channel_list@ =~= Seq::<Channel>::empty());
            assert(self@.contexts =~= seq![ContextView { name: "ctx0"@, channels: Seq::empty() }]);
        }
    }

    fn start_brush(&mut self, attrs: &Vec<XmlAttribute>) -> (r: Result<(), InkError>)
        requires
            old(self)@.wf(),
        ensures
            match start_brush(old(self)@, attrs@) {
                Ok(s) => r is Ok && final(self)@ == s && s.wf(),
                Err(e) => r == Err::<(), InkError>(e),
            },
    {
        let id = or_default_exec(get_id(attrs, "id"), "br0");
        if self.find_brush(&id).is_some() {
            return Err(InkError::DuplicateBrush);
        }
        self.brushes.push(Brush::init_brush_with_id(id.as_str()));
        self.current_brush_id = Some(id);
        proof {
            let s = start_brush(old(self)@, attrs@)->Ok_0;
            assert(self@.brushes =~= s.brushes);
        }
        Ok(())
    }

    fn end_element(&mut self, name: &String) -> (r: Result<(), InkError>)
        requires
            old(self)@.wf(),
        ensures
            match end_element(old(self)@, name@) {
                Ok(s) => r is Ok && final(self)@ == s && s.wf(),
                Err(e) => r == Err::<(), InkError>(e),
            },
    {
        let n = name.as_str();
        if crate::text::str_is(n, "context") {
            self.current_context_id = None;
            self.start_context_element = None;
        } else if crate::text::str_is(n, "traceFormat") {
            if self.start_context_element == Some(ContextStartElement::TraceFormat) {
                self.current_context_id = None;
                self.start_context_element = None;
            }
        } else if crate::text::str_is(n, "trace") {
            self.is_trace = false;
            self.current_context_id = None;
            self.current_brush_id = None;
        } else if crate::text::str_is(n, "brush") {
            let i = match &self.current_brush_id {
                None => {
                    return Err(InkError::MalformedDocument);
                },
                Some(id) => match self.find_brush(id) {
                    None => {
                        return Err(InkError::MalformedDocument);
                    },
                    Some(i) => i,
                },
            };
            let ghost bs = self@.brushes;
            let mut b = self.brushes.remove(i);
            if b.stroke_width.is_zero() {
                b.stroke_width = Decimal { mantissa: 1, scale: 1 };
            }
            self.brushes.insert(i, b);
            self.current_brush_id = None;
            proof {
                let s = end_element(old(self)@, name@)->Ok_0;
                assert(self@.brushes =~= s.brushes);
            }
        }
        Ok(())
    }

    fn start_channel(&mut self, attrs: &Vec<XmlAttribute>) -> (r: Result<(), InkError>)
        requires
            old(self)@.wf(),
        ensures
            match start_channel(old(self)@, attrs@) {
                Ok(s) => r is Ok && final(self)@ == s && s.wf(),
                Err(e) => r == Err::<(), InkError>(e),
            },
    {
        let ids = get_ids(attrs, vec!["name", "type", "units", "max"]);
        assert(ids@.map_values(|o: Option<String>| opt_view(o)) =~= attrs_named(
            attrs@,
            channel_attr_names(),
        ));
        let c = match &self.current_context_id {
            None => {
                return Ok(());
            },
            Some(c) => c.clone(),
        };
        let i = match self.find_context(&c) {
            None => {
                return Err(InkError::UnknownContext);
            },
            Some(i) => i,
        };
        let ch = match Channel::initialise_channel_from_name(ids) {
            Ok(ch) => ch,
            Err(e) => {
                return Err(e);
            },
        };
        let ghost cs = self@.contexts;
        let mut ctx = self.context.remove(i);
        ctx.channel_list.push(ch);
        self.context.insert(i, ctx);
        proof {
            let s = start_channel(old(self)@, attrs@)->Ok_0;
            assert(self@.contexts =~= s.contexts);
            assert forall|k: int| 0 <= k < s.contexts.len() implies (#[trigger] s.contexts[k]).wf() by {
                if k == i as int {
                    assert forall|m: int| 0 <= m < s.contexts[k].channels.len() implies (
                    #[trigger] s.contexts[k].channels[m]).wf() by {
                        if m < cs[k].channels.len() {
                            assert(s.contexts[k].channels[m] == cs[k].channels[m]);
                        }
                    }
                } else {
                    assert(s.contexts[k] == cs[k]);
                }
            }
        }
        Ok(())
    }

    fn start_channel_property(&mut self, attrs: &Vec<XmlAttribute>) -> (r: Result<(), InkError>)
        requires
            old(self)@.wf(),
        ensures
            match start_channel_property(old(self)@, attrs@) {
                Ok(s) => r is Ok && final(self)@ == s && s.wf(),
                Err(e) => r == Err::<(), InkError>(e),
            },
    {
        let ids = get_ids(attrs, vec!["channel", "name", "value", "units"]);
        assert(ids@.map_values(|o: Option<String>| opt_view(o)) =~= attrs_named(
            attrs@,
            property_attr_names(),
        ));
        if !verify_channel_properties(&ids) {
            return Ok(());
        }
        let c = match &self.current_context_id {
            None => {
                return Ok(());
            },
            Some(c) => c.clone(),
        };
        let i = match self.find_context(&c) {
            None => {
                return Ok(());
            },
            Some(i) => i,
        };
        let kind = match ChannelKind::parse(&ids[0]) {
            Ok(k) => k,
            Err(e) => {
                return Err(e);
            },
        };
        let ru = match ResolutionUnits::parse(&ids[3]) {
            Ok(u) => u,
            Err(e) => {
                return Err(e);
            },
        };
        let v = match &ids[2] {
            Some(t) => parse_number(&chars_of(t.as_str())),
            None => None,
        };
        let v = match v {
            Some(v) => v,
            None => {
                return Err(InkError::InvalidNumber);
            },
        };
        let j = match self.context[i].last_channel_index(kind) {
            Some(j) => j,
            None => {
                return Err(InkError::MissingChannel);
            },
        };
        self.set_resolution(i, j, v, ru);
        Ok(())
    }

    /// Sets the resolution of channel `j` of context `i`.
    fn set_resolution(&mut self, i: usize, j: usize, v: Decimal, ru: ResolutionUnits)
        requires
            old(self)@.wf(),
            i < old(self)@.contexts.len(),
            j < old(self)@.contexts[i as int].channels.len(),
            v.wf(),
        ensures
            final(self)@ == final_resolution_view(old(self)@, i as int, j as int, v, ru),
            final(self)@.wf(),
    {
        let ghost cs = self@.contexts;
        let mut ctx = self.context.remove(i);
        let mut ch = ctx.channel_list.remove(j);
        ch.resolution_value = v;
        ch.unit_resolution = ru;
        ctx.channel_list.insert(j, ch);
        self.context.insert(i, ctx);
        proof {
            let s = final_resolution_view(old(self)@, i as int, j as int, v, ru);
            assert(self.context@[i as int].channel_list@ =~= s.contexts[i as int].channels);
            assert(self@.contexts =~= s.contexts);
            assert forall|k: int| 0 <= k < s.contexts.len() implies (#[trigger] s.contexts[k]).wf() by {
                if k == i as int {
                    assert forall|m: int| 0 <= m < s.contexts[k].channels.len() implies (
                    #[trigger] s.contexts[k].channels[m]).wf() by {
                        if m != j as int {
                            assert(s.contexts[k].channels[m] == cs[k].channels[m]);
                        }
                    }
                } else {
                    assert(s.contexts[k] == cs[k]);
                }
            }
        }
    }

    fn start_brush_property(&mut self, attrs: &Vec<XmlAttribute>) -> (r: Result<(), InkError>)
        requires
            old(self)@.wf(),
        ensures
            match start_brush_property(old(self)@, attrs@) {
                Ok(s) => r is Ok && final(self)@ == s && s.wf(),
                Err(e) => r == Err::<(), InkError>(e),
            },
    {
        let id = match &self.current_brush_id {
            None => {
                return Err(InkError::MalformedDocument);
            },
            Some(id) => id.clone(),
        };
        let i = match self.find_brush(&id) {
            None => {
                return Err(InkError::MalformedDocument);
            },
            Some(i) => i,
        };
        let ghost bs = self@.brushes;
        let mut b = self.brushes.remove(i);
        let res = apply_brush_property(&mut b, attrs);
        self.brushes.insert(i, b);
        proof {
            if let Ok(s) = start_brush_property(old(self)@, attrs@) {
                assert(self@.brushes =~= s.brushes);
                assert forall|k: int| 0 <= k < s.brushes.len() implies (#[trigger] s.brushes[k]).wf() by {
                    if k != i as int {
                        assert(s.brushes[k] == bs[k]);
                    }
                }
            }
        }
        res
    }

    fn start_trace(&mut self, attrs: &Vec<XmlAttribute>) -> (r: Result<(), InkError>)
        requires
            old(self)@.wf(),
        ensures
            match start_trace(old(self)@, attrs@) {
                Ok(s) => r is Ok && final(self)@ == s && s.wf(),
                Err(e) => r == Err::<(), InkError>(e),
            },
    {
        let ctx = match get_id(attrs, "contextRef") {
            Some(c) => strip_hash_exec(&c),
            None => "ctx0".to_owned(),
        };
        self.is_trace = true;
        self.current_context_id = Some(ctx);
        match get_id(attrs, "brushRef") {
            Some(b) => {
                let id = strip_hash_exec(&b);
                if self.find_brush(&id).is_none() {
                    return Err(InkError::MissingBrush);
                }
                self.current_brush_id = Some(id);
            },
            None => {
                if self.brushes.len() == 0 {
                    self.current_brush_id = None;
                } else if self.brushes.len() == 1 {
                    self.current_brush_id = Some(self.brushes[0].name.clone());
                } else {
                    return Err(InkError::AmbiguousBrush);
                }
            },
        }
        Ok(())
    }

    /// The column types of context `i`.
    fn column_types_of(&self, i: usize) -> (r: Vec<ChannelType>)
        requires
            i < self@.contexts.len(),
        ensures
            r@ == column_types(self@.contexts[i as int]),
    {
        let chs = &self.context[i].channel_list;
        let mut r: Vec<ChannelType> = Vec::new();
        let mut k: usize = 0;
        while k < chs.len()
            invariant
                k <= chs@.len(),
                r@ == chs@.subrange(0, k as int).map_values(|ch: Channel| ch.types),
            decreases chs@.len() - k,
        {
            r.push(chs[k].types);
            k = k + 1;
            assert(r@ =~= chs@.subrange(0, k as int).map_values(|ch: Channel| ch.types));
        }
        assert(chs@.subrange(0, chs@.len() as int) =~= chs@);
        r
    }

    fn characters(&mut self, text: &String) -> (r: Result<(), InkError>)
        requires
            old(self)@.wf(),
        ensures
            match characters(old(self)@, text@) {
                Ok(s) => r is Ok && final(self)@ == s && s.wf(),
                Err(e) => r == Err::<(), InkError>(e),
            },
    {
        if !self.is_trace {
            return Ok(());
        }
        let c = match &self.current_context_id {
            None => {
                return Err(InkError::MalformedDocument);
            },
            Some(c) => c.clone(),
        };
        let i = match self.find_context(&c) {
            None => {
                return Err(InkError::UnknownContext);
            },
            Some(i) => i,
        };
        let types = self.column_types_of(i);
        let mut td = TraceData::from_channel_types(types);
        match td.parse_raw_data(text.clone()) {
            Ok(()) => {},
            Err(e) => {
                return Err(e);
            },
        }
        let ghost bs = self@.brushes;
        let brush: String = match &self.current_brush_id {
            Some(b) => b.clone(),
            None => {
                if self.brushes.len() == 0 {
                    self.brushes.push(
                        Brush::init(
                            "br0".to_owned(),
                            (255, 255, 255),
                            true,
                            0,
                            Decimal { mantissa: 1, scale: 1 },
                        ),
                    );
                    proof {
                        assert(self@.brushes =~= bs.push(default_brush_view()));
                    }
                    "br0".to_owned()
                } else {
                    let b0 = "br0".to_owned();
                    if self.find_brush(&b0).is_some() {
                        b0
                    } else {
                        return Err(InkError::MissingBrush);
                    }
                }
            },
        };
        let data = td.data();
        let ghost rec = (c, brush, data);
        self.traces.push((c, brush, data));
        self.current_context_id = None;
        self.current_brush_id = None;
        proof {
            let s = characters(old(self)@, text@)->Ok_0;
            assert(self@.traces =~= s.traces);
            assert(self@.brushes =~= s.brushes);
            assert forall|k: int| 0 <= k < s.traces.len() implies record_wf(#[trigger] s.traces[k]) by {
                if k < old(self)@.traces.len() {
                    assert(s.traces[k] == old(self)@.traces[k]);
                } else {
                    assert(s.traces[k].2 == td@.data);
                    lemma_decoded_columns(column_types(old(self)@.contexts[i as int]), text@);
                }
            }
            assert forall|k: int| 0 <= k < s.brushes.len() implies (#[trigger] s.brushes[k]).wf() by {
                if k < bs.len() {
                    assert(s.brushes[k] == bs[k]);
                }
            }
        }
        Ok(())
    }

    fn start_element(&mut self, name: &String, attrs: &Vec<XmlAttribute>) -> (r: Result<
        (),
        InkError,
    >)
        requires
            old(self)@.wf(),
        ensures
            match start_element(old(self)@, name@, attrs@) {
                Ok(s) => r is Ok && final(self)@ == s && s.wf(),
                Err(e) => r == Err::<(), InkError>(e),
            },
    {
        let n = name.as_str();
        if crate::text::str_is(n, "context") {
            self.start_context(attrs)
        } else if crate::text::str_is(n, "traceFormat") {
            self.start_trace_format();
            Ok(())
        } else if crate::text::str_is(n, "channel") {
            self.start_channel(attrs)
        } else if crate::text::str_is(n, "channelProperty") {
            self.start_channel_property(attrs)
        } else if crate::text::str_is(n, "brush") {
            self.start_brush(attrs)
        } else if crate::text::str_is(n, "brushProperty") {
            self.start_brush_property(attrs)
        } else if crate::text::str_is(n, "trace") {
            self.start_trace(attrs)
        } else {
            Ok(())
        }
    }

    fn step(&mut self, ev: &XmlEvent) -> (r: Result<(), InkError>)
        requires
            old(self)@.wf(),
        ensures
            match step(old(self)@, *ev) {
                Ok(s) => r is Ok && final(self)@ == s && s.wf(),
                Err(e) => r == Err::<(), InkError>(e),
            },
    {
        reveal(step);
        match ev {
            XmlEvent::StartElement(name, attrs) => self.start_element(name, attrs),
            XmlEvent::EndElement(name) => self.end_element(name),
            XmlEvent::Characters(t) => self.characters(t),
            XmlEvent::Failure(m) => Err(InkError::XmlError(m.clone())),
            XmlEvent::Other => Ok(()),
        }
    }
}

/// Applies one `<brushProperty>` to brush `b`.
fn apply_brush_property(b: &mut Brush, attrs: &Vec<XmlAttribute>) -> (r: Result<(), InkError>)
    requires
        old(b)@.wf(),
    ensures
        match brush_property(old(b)@, attrs@) {
            Ok(nb) => r is Ok && final(b)@ == nb && nb.wf(),
            Err(e) => r == Err::<(), InkError>(e),
        },
{
    let p = match get_id(attrs, "name") {
        None => {
            return Err(InkError::MissingAttribute);
        },
        Some(p) => p,
    };
    let ps = p.as_str();
    if crate::text::str_is(ps, "width") || crate::text::str_is(ps, "height") {
        let u = match get_id(attrs, "units") {
            None => {
                return Err(InkError::MissingAttribute);
            },
            Some(u) => u,
        };
        let unit = match ChannelUnit::parse(&Some(u)) {
            None => {
                return Err(InkError::InvalidVocabulary(VocabularyKind::Unit));
            },
            Some(unit) => unit,
        };
        let v = match get_id(attrs, "value") {
            None => {
                return Err(InkError::MissingAttribute);
            },
            Some(v) => v,
        };
        let d = match parse_number(&chars_of(v.as_str())) {
            None => {
                return Err(InkError::InvalidNumber);
            },
            Some(d) => d,
        };
        let w = match unit.convert_to(ChannelUnit::cm, d) {
            Err(e) => {
                return Err(e);
            },
            Ok(w) => w,
        };
        b.stroke_width = b.stroke_width.max(&w);
        Ok(())
    } else if crate::text::str_is(ps, "color") {
        let v = match get_id(attrs, "value") {
            None => {
                return Err(InkError::MissingAttribute);
            },
            Some(v) => v,
        };
        match parse_color(&v) {
            None => Err(InkError::InvalidColor),
            Some(c) => {
                b.color = c;
                Ok(())
            },
        }
    } else if crate::text::str_is(ps, "transparency") {
        let v = match get_id(attrs, "value") {
            None => {
                return Err(InkError::MissingAttribute);
            },
            Some(v) => v,
        };
        match parse_transparency(&v) {
            None => Err(InkError::InvalidNumber),
            Some(t) => {
                b.transparency = t;
                Ok(())
            },
        }
    } else if crate::text::str_is(ps, "ignorePressure") {
        let v = match get_id(attrs, "value") {
            None => {
                return Err(InkError::MissingAttribute);
            },
            Some(v) => v,
        };
        match parse_flag(&v) {
            None => Err(InkError::InvalidBoolean),
            Some(f) => {
                b.ignorepressure = f;
                Ok(())
            },
        }
    } else {
        Ok(())
    }
}

/// What a document holds: its trace records, its contexts and its brushes.
#[derive(Debug)]
pub struct ParserResult {
    /// For each trace, in document order: its context id, its brush id, and its samples,
    /// one entry per channel of the context, in the context's order.
    pub context_brush_data_vec: Vec<(String, String, Vec<ChannelData>)>,
    pub context_dict: Vec<Context>,
    pub context_brush: Vec<Brush>,
}

impl ParserResult {
    /// Whether every trace record has one column per channel of its context, each in the
    /// storage of the channel's type.
    pub open spec fn records_match(self) -> bool {
        forall|i: int|
            0 <= i < self.context_brush_data_vec@.len() ==> record_matches(
                context_views(self.context_dict@),
                record_view(#[trigger] self.context_brush_data_vec@[i]),
            )
    }

    /// Whether every brush has a positive width.
    pub open spec fn widths_positive(self) -> bool {
        forall|k: int|
            0 <= k < self.context_brush@.len() ==> (#[trigger] self.context_brush@[k]).stroke_width.mantissa
                > 0
    }

    /// Whether this result holds what the parser's state `st` holds.
    pub open spec fn holds(self, st: ParserView) -> bool {
        &&& record_views(self.context_brush_data_vec@) == st.traces
        &&& context_views(self.context_dict@) == st.contexts
        &&& brush_views(self.context_brush@) == st.brushes
        &&& st.wf()
    }
}

/// Runs the parser over a sequence of XML events.
pub fn parse_events(events: &Vec<XmlEvent>) -> (r: Result<ParserResult, InkError>)
    ensures
        match run(initial_parser(), events@, 0) {
            Ok(st) => r matches Ok(res) && res.holds(st),
            Err(e) => r matches Err(x) && x == e,
        },
        channels_before_traces(events@) ==> (r matches Ok(res) ==> res.records_match()),
        brushes_closed(events@) ==> (r matches Ok(res) ==> res.widths_positive()),
{

    let mut pc = ParserContext::new();
    let mut i: usize = 0;
    while i < events.len()
        invariant
            i <= events@.len(),
            pc@.wf(),
            run(pc@, events@, i as int) == run(initial_parser(), events@, 0),
        decreases events@.len() - i,
    {
        match pc.step(&events[i]) {
            Ok(()) => {},
            Err(e) => {
                return Err(e);
            },
        }
        i = i + 1;
    }
    let ParserContext { traces, context, brushes, .. } = pc;
    let res = ParserResult { context_brush_data_vec: traces, context_dict: context, context_brush: brushes };
    proof {
        if channels_before_traces(events@) {
            lemma_parse_records_match(events@);
            let st = run(initial_parser(), events@, 0)->Ok_0;
            assert(res.holds(st));
            assert forall|i: int| 0 <= i < res.context_brush_data_vec@.len() implies record_matches(
                context_views(res.context_dict@),
                record_view(#[trigger] res.context_brush_data_vec@[i]),
            ) by {
                assert(st.traces[i] == record_view(res.context_brush_data_vec@[i]));
            }
        }
    }
    proof {
        if brushes_closed(events@) {
            lemma_parsed_widths_positive(events@);
            let st = run(initial_parser(), events@, 0)->Ok_0;
            assert forall|k: int| 0 <= k < res.context_brush@.len() implies (
            #[trigger] res.context_brush@[k]).stroke_width.mantissa > 0 by {
                assert(st.brushes[k] == res.context_brush@[k]@);
            }
        }
    }
    Ok(res)
}

/// Parses a document: its contexts, its brushes, and the raw samples of each trace.
pub fn parser(buf_file: &[u8]) -> (r: Result<ParserResult, InkError>)
    ensures
        match run(initial_parser(), xml_events_of(buf_file@), 0) {
            Ok(st) => r matches Ok(res) && res.holds(st),
            Err(e) => r matches Err(x) && x == e,
        },
        channels_before_traces(xml_events_of(buf_file@)) ==> (r matches Ok(res)
            ==> res.records_match()),
        brushes_closed(xml_events_of(buf_file@)) ==> (r matches Ok(res) ==> res.widths_positive()),
{
    let events = read_xml_events(buf_file);
    parse_events(&events)
}

/// A stroke in physical units with its brush.
pub type StrokeView = (Seq<Rational>, Seq<Rational>, Seq<Rational>, BrushView);

/// The samples of channel `i` of a record in physical units.
pub open spec fn channel_values(chs: Seq<Channel>, data: Seq<Column>, i: int) -> Result<
    Seq<Rational>,
    InkError,
> {
    if i >= data.len() {
        Err(InkError::MissingChannel)
    } else {
        match scaling_of(chs[i]) {
            Err(e) => Err(e),
            Ok(q) => scaled_column(data[i], q),
        }
    }
}

/// The values of a record in physical units: X, Y and F (all ones without a force
/// channel); `None` when the channels lack X or Y.
pub open spec fn stroke_values(chs: Seq<Channel>, data: Seq<Column>) -> Result<
    Option<(Seq<Rational>, Seq<Rational>, Seq<Rational>)>,
    InkError,
> {
    match (first_channel(chs, ChannelKind::X), first_channel(chs, ChannelKind::Y)) {
        (Some(ix), Some(iy)) => match channel_values(chs, data, ix) {
            Err(e) => Err(e),
            Ok(x) => match channel_values(chs, data, iy) {
                Err(e) => Err(e),
                Ok(y) => match first_channel(chs, ChannelKind::F) {
                    Some(fi) => match channel_values(chs, data, fi) {
                        Err(e) => Err(e),
                        Ok(f) => Ok(Some((x, y, f))),
                    },
                    None => Ok(
                        Some((x, y, Seq::new(x.len(), |k: int| Rational { num: 1, den: 1 }))),
                    ),
                },
            },
        },
        _ => Ok(None),
    }
}

/// The canonical stroke of one record; `None` when its context lacks X or Y.
#[verifier::opaque]
pub open spec fn format_record(
    contexts: Seq<ContextView>,
    brushes: Seq<BrushView>,
    t: TraceRecordView,
) -> Result<Option<StrokeView>, InkError> {
    let ci = ctx_pos(contexts, t.0, 0);
    let bi = brush_pos(brushes, t.1, 0);
    if ci < 0 {
        Err(InkError::UnknownContext)
    } else if bi < 0 {
        Err(InkError::UnknownBrush)
    } else {
        match stroke_values(contexts[ci].channels, t.2) {
            Err(e) => Err(e),
            Ok(None) => Ok(None),
            Ok(Some((x, y, f))) => Ok(Some((x, y, f, brushes[bi]))),
        }
    }
}

/// The canonical strokes of the first `n` records.
pub open spec fn format_prefix(
    contexts: Seq<ContextView>,
    brushes: Seq<BrushView>,
    traces: Seq<TraceRecordView>,
    n: int,
) -> Result<Seq<StrokeView>, InkError>
    decreases n,
{
    if n <= 0 {
        Ok(Seq::empty())
    } else {
        match format_prefix(contexts, brushes, traces, n - 1) {
            Err(e) => Err(e),
            Ok(acc) => match format_record(contexts, brushes, traces[n - 1]) {
                Err(e) => Err(e),
                Ok(None) => Ok(acc),
                Ok(Some(x)) => Ok(acc.push(x)),
            },
        }
    }
}

proof fn lemma_format_error_stays(
    contexts: Seq<ContextView>,
    brushes: Seq<BrushView>,
    traces: Seq<TraceRecordView>,
    k: int,
    n: int,
)
    requires
        0 <= k <= n,
        format_prefix(contexts, brushes, traces, k) is Err,
    ensures
        format_prefix(contexts, brushes, traces, n) == format_prefix(contexts, brushes, traces, k),
    decreases n - k,
{
    if k < n {
        lemma_format_error_stays(contexts, brushes, traces, k, n - 1);
    }
}

pub open spec fn stroke_view(s: (FormattedStroke, Brush)) -> StrokeView {
    (s.0.x@, s.0.y@, s.0.f@, s.1@)
}

pub open spec fn stroke_views(v: Seq<(FormattedStroke, Brush)>) -> Seq<StrokeView> {
    v.map_values(|s: (FormattedStroke, Brush)| stroke_view(s))
}

/// The position of the first context named `name`, or the length when there is none.
fn position_of_context(v: &Vec<Context>, name: &String) -> (r: usize)
    ensures
        r <= v@.len(),
        r < v@.len() ==> ctx_pos(context_views(v@), name@, 0) == r as int,
        r == v@.len() ==> ctx_pos(context_views(v@), name@, 0) == -1,
{
    let ghost cs = context_views(v@);
    let mut i: usize = 0;
    while i < v.len()
        invariant
            i <= v@.len(),
            cs == context_views(v@),
            ctx_pos(cs, name@, i as int) == ctx_pos(cs, name@, 0),
        decreases v@.len() - i,
    {
        assert(cs[i as int].name == v@[i as int].name@);
        if v[i].name == *name {
            return i;
        }
        i = i + 1;
    }
    i
}

/// The position of the first brush named `name`, or the length when there is none.
fn position_of_brush(v: &Vec<Brush>, name: &String) -> (r: usize)
    ensures
        r <= v@.len(),
        r < v@.len() ==> brush_pos(brush_views(v@), name@, 0) == r as int,
        r == v@.len() ==> brush_pos(brush_views(v@), name@, 0) == -1,
{
    let ghost bs = brush_views(v@);
    let mut i: usize = 0;
    while i < v.len()
        invariant
            i <= v@.len(),
            bs == brush_views(v@),
            brush_pos(bs, name@, i as int) == brush_pos(bs, name@, 0),
        decreases v@.len() - i,
    {
        assert(bs[i as int].name == v@[i as int].name@);
        if v[i].name == *name {
            return i;
        }
        i = i + 1;
    }
    i
}

/// The samples of channel `i` of a record in physical units.
fn channel_values_exec(chs: &Vec<Channel>, data: &Vec<ChannelData>, i: usize) -> (r: Result<
    Vec<Rational>,
    InkError,
>)
    requires
        i < chs@.len(),
        chs@[i as int].wf(),
        forall|k: int| 0 <= k < data@.len() ==> (#[trigger] data@[k])@.wf(),
    ensures
        match channel_values(chs@, column_views(data@), i as int) {
            Ok(v) => r matches Ok(w) && w@ == v,
            Err(e) => r matches Err(x) && x == e,
        },
{
    if i >= data.len() {
        return Err(InkError::MissingChannel);
    }
    match chs[i].get_scaling() {
        Err(e) => Err(e),
        Ok(q) => {
            assert(data@[i as int]@.wf());
            data[i].scaled(q)
        },
    }
}

/// The values of a record in physical units; `None` when the context lacks X or Y.
fn stroke_values_exec(ctx: &Context, data: &Vec<ChannelData>) -> (r: Result<
    Option<(Vec<Rational>, Vec<Rational>, Vec<Rational>)>,
    InkError,
>)
    requires
        ctx.wf(),
        forall|k: int| 0 <= k < data@.len() ==> (#[trigger] data@[k])@.wf(),
    ensures
        match stroke_values(ctx.channel_list@, column_views(data@)) {
            Ok(Some(v)) => r matches Ok(Some(w)) && (w.0@, w.1@, w.2@) == v,
            Ok(None) => r matches Ok(None),
            Err(e) => r matches Err(x) && x == e,
        },
{
    let (ix, iy) = match (ctx.channel_exists(ChannelKind::X), ctx.channel_exists(ChannelKind::Y)) {
        (Some(ix), Some(iy)) => (ix, iy),
        _ => {
            return Ok(None);
        },
    };
    let x = match channel_values_exec(&ctx.channel_list, data, ix) {
        Ok(x) => x,
        Err(e) => {
            return Err(e);
        },
    };
    let y = match channel_values_exec(&ctx.channel_list, data, iy) {
        Ok(y) => y,
        Err(e) => {
            return Err(e);
        },
    };
    let f = match ctx.channel_exists(ChannelKind::F) {
        Some(fi) => match channel_values_exec(&ctx.channel_list, data, fi) {
            Ok(f) => f,
            Err(e) => {
                return Err(e);
            },
        },
        None => {
            let mut ones: Vec<Rational> = Vec::new();
            let mut m: usize = 0;
            while m < x.len()
                invariant
                    m <= x@.len(),
                    ones@ == Seq::new(m as nat, |j: int| Rational { num: 1, den: 1 }),
                decreases x@.len() - m,
            {
                ones.push(Rational { num: 1, den: 1 });
                m = m + 1;
                assert(ones@ =~= Seq::new(m as nat, |j: int| Rational { num: 1, den: 1 }));
            }
            ones
        },
    };
    Ok(Some((x, y, f)))
}

/// The canonical stroke of record `k`; `None` when its context lacks X or Y.
fn format_record_exec(res: &ParserResult, k: usize) -> (r: Result<
    Option<(FormattedStroke, Brush)>,
    InkError,
>)
    requires
        k < res.context_brush_data_vec@.len(),
        res.wf(),
    ensures
        match format_record(
            context_views(res.context_dict@),
            brush_views(res.context_brush@),
            record_view(res.context_brush_data_vec@[k as int]),
        ) {
            Ok(Some(v)) => r matches Ok(Some(w)) && stroke_view(w) == v,
            Ok(None) => r matches Ok(None),
            Err(e) => r matches Err(x) && x == e,
        },
{
    let ghost cs = context_views(res.context_dict@);
    let ghost bs = brush_views(res.context_brush@);
    let rec = &res.context_brush_data_vec[k];
    reveal(format_record);
    let ci = position_of_context(&res.context_dict, &rec.0);
    if ci == res.context_dict.len() {
        return Err(InkError::UnknownContext);
    }
    let bi = position_of_brush(&res.context_brush, &rec.1);
    if bi == res.context_brush.len() {
        return Err(InkError::UnknownBrush);
    }
    let ctx = &res.context_dict[ci];
    assert(ctx@ == cs[ci as int]);
    let data = &rec.2;
    assert(column_views(data@) == record_view(*rec).2);
    assert forall|m: int| 0 <= m < data@.len() implies (#[trigger] data@[m])@.wf() by {
        assert(record_wf(record_view(*rec)));
        assert(record_view(*rec).2[m] == data@[m]@);
    }
    let (x, y, f) = match stroke_values_exec(ctx, data) {
        Err(e) => {
            return Err(e);
        },
        Ok(None) => {
            return Ok(None);
        },
        Ok(Some(v)) => v,
    };
    let brush = res.context_brush[bi].copy();
    assert(brush@ == bs[bi as int]);
    Ok(Some((FormattedStroke { x, y, f }, brush)))
}

impl ParserResult {
    pub open spec fn wf(self) -> bool {
        &&& forall|i: int| 0 <= i < self.context_dict@.len() ==> (#[trigger] self.context_dict@[i]).wf()
        &&& forall|i: int| 0 <= i < self.context_brush@.len() ==> (#[trigger] self.context_brush@[i])@.wf()
        &&& forall|i: int|
            0 <= i < self.context_brush_data_vec@.len() ==> record_wf(
                record_view(#[trigger] self.context_brush_data_vec@[i]),
            )
    }
}

/// The canonical strokes of a parse result: X and Y in centimetres, F between 0 and 1
/// (all ones without a force channel), each with a copy of its brush. Records whose
/// context lacks X or Y are skipped.
pub fn format_result(res: &ParserResult) -> (r: Result<Vec<(FormattedStroke, Brush)>, InkError>)
    requires
        res.wf(),
    ensures
        match format_prefix(
            context_views(res.context_dict@),
            brush_views(res.context_brush@),
            record_views(res.context_brush_data_vec@),
            res.context_brush_data_vec@.len() as int,
        ) {
            Ok(v) => r matches Ok(w) && stroke_views(w@)
                == v,
            Err(e) => r matches Err(x) && x == e,
        },
        r matches Ok(w) ==> forall|k: int|
            0 <= k < w@.len() ==> (#[trigger] w@[k]).0.x@.len() == w@[k].0.y@.len()
                && w@[k].0.y@.len() == w@[k].0.f@.len(),
{
    let ghost cs = context_views(res.context_dict@);
    let ghost bs = brush_views(res.context_brush@);
    let ghost ts = record_views(res.context_brush_data_vec@);
    let n = res.context_brush_data_vec.len();
    let mut out: Vec<(FormattedStroke, Brush)> = Vec::new();
    let mut k: usize = 0;
    assert(stroke_views(out@) =~= Seq::<StrokeView>::empty());
    while k < n
        invariant
            k <= n == res.context_brush_data_vec@.len(),
            res.wf(),
            ts.len() == n,
            cs == context_views(res.context_dict@),
            bs == brush_views(res.context_brush@),
            ts == record_views(res.context_brush_data_vec@),
            forall|j: int| 0 <= j < n ==> #[trigger] ts[j] == record_view(res.context_brush_data_vec@[j]),
            format_prefix(cs, bs, ts, k as int) == Ok::<Seq<StrokeView>, InkError>(
                stroke_views(out@),
            ),
        decreases n - k,
    {
        let item = format_record_exec(res, k);
        assert(ts[k as int] == record_view(res.context_brush_data_vec@[k as int]));
        match item {
            Err(e) => {
                proof {
                    assert(format_record(cs, bs, ts[k as int]) is Err);
                    assert(format_prefix(cs, bs, ts, k as int) is Ok);
                    assert(format_prefix(cs, bs, ts, k + 1) is Err);
                    lemma_format_error_stays(cs, bs, ts, k + 1, n as int);
                }
                return Err(e);
            },
            Ok(None) => {},
            Ok(Some(s)) => {
                out.push(s);
                assert(stroke_views(out@) =~= format_prefix(
                    cs,
                    bs,
                    ts,
                    k as int,
                )->Ok_0.push(stroke_view(s)));
            },
        }
        k = k + 1;
    }
    proof {
        assert forall|i: int| 0 <= i < ts.len() implies record_wf(#[trigger] ts[i]) by {
            assert(ts[i] == record_view(res.context_brush_data_vec@[i]));
        }
        lemma_format_lengths(cs, bs, ts, n as int);
        let v = format_prefix(cs, bs, ts, n as int)->Ok_0;
        assert forall|k: int| 0 <= k < out@.len() implies (#[trigger] out@[k]).0.x@.len()
            == out@[k].0.y@.len() && out@[k].0.y@.len() == out@[k].0.f@.len() by {
            assert(v[k] == stroke_view(out@[k]));
        }
    }
    Ok(out)
}

/// Every canonical stroke made from uniform records has as many x, y and f values.
pub proof fn lemma_format_lengths(
    contexts: Seq<ContextView>,
    brushes: Seq<BrushView>,
    traces: Seq<TraceRecordView>,
    n: int,
)
    requires
        n <= traces.len(),
        forall|i: int| 0 <= i < traces.len() ==> record_wf(#[trigger] traces[i]),
        format_prefix(contexts, brushes, traces, n) is Ok,
    ensures
        forall|k: int|
            0 <= k < format_prefix(contexts, brushes, traces, n)->Ok_0.len() ==> {
                let s = #[trigger] format_prefix(contexts, brushes, traces, n)->Ok_0[k];
                s.0.len() == s.1.len() && s.1.len() == s.2.len()
            },
    decreases n,
{
    if n > 0 {
        lemma_format_lengths(contexts, brushes, traces, n - 1);
        let acc = format_prefix(contexts, brushes, traces, n - 1)->Ok_0;
        let v = format_prefix(contexts, brushes, traces, n)->Ok_0;
        reveal(format_record);
        let t = traces[n - 1];
        assert(record_wf(t));
        if let Ok(Some(x)) = format_record(contexts, brushes, t) {
            let ci = ctx_pos(contexts, t.0, 0);
            lemma_stroke_lengths(contexts[ci].channels, t.2);
            assert(v == acc.push(x));
            assert forall|k: int| 0 <= k < v.len() implies {
                let s = #[trigger] v[k];
                s.0.len() == s.1.len() && s.1.len() == s.2.len()
            } by {
                if k < acc.len() {
                    assert(v[k] == acc[k]);
                }
            }
        }
    }
}

/// Parses a document into canonical strokes, each with its brush.
pub fn parse_formatted(buf_file: &[u8]) -> (r: Result<Vec<(FormattedStroke, Brush)>, InkError>)
    ensures
        match run(initial_parser(), xml_events_of(buf_file@), 0) {
            Ok(st) => match format_prefix(st.contexts, st.brushes, st.traces, st.traces.len() as int) {
                Ok(v) => r matches Ok(w) && stroke_views(w@)
                    == v,
                Err(e) => r matches Err(x) && x == e,
            },
            Err(e) => r matches Err(x) && x == e,
        },
        r matches Ok(w) ==> forall|k: int|
            0 <= k < w@.len() ==> (#[trigger] w@[k]).0.x@.len() == w@[k].0.y@.len()
                && w@[k].0.y@.len() == w@[k].0.f@.len(),
{
    let res = match parser(buf_file) {
        Ok(res) => res,
        Err(e) => {
            return Err(e);
        },
    };
    proof {
        let st = run(initial_parser(), xml_events_of(buf_file@), 0)->Ok_0;
        assert(res.holds(st));
        assert(st.wf());
        assert forall|i: int| 0 <= i < res.context_dict@.len() implies (#[trigger] res.context_dict@[i]).wf() by {
            assert(st.contexts[i] == res.context_dict@[i]@);
            assert(st.contexts[i].wf());
            assert forall|m: int| 0 <= m < res.context_dict@[i].channel_list@.len() implies (
            #[trigger] res.context_dict@[i].channel_list@[m]).wf() by {
                assert(st.contexts[i].channels[m] == res.context_dict@[i].channel_list@[m]);
            }
        }
        assert forall|i: int| 0 <= i < res.context_brush@.len() implies (#[trigger] res.context_brush@[i])@.wf() by {
            assert(st.brushes[i] == res.context_brush@[i]@);
        }
        assert forall|i: int| 0 <= i < res.context_brush_data_vec@.len() implies record_wf(
            record_view(#[trigger] res.context_brush_data_vec@[i]),
        ) by {
            assert(st.traces[i] == record_view(res.context_brush_data_vec@[i]));
        }
    }
    format_result(&res)
}

/// A trace record holds one column per channel of its context, each in the storage of
/// the channel's type, all with the same number of samples.
pub proof fn lemma_record_matches_context(st: ParserView, text: Seq<char>)
    requires
        characters(st, text) is Ok,
    ensures
        ({
            let s2 = characters(st, text)->Ok_0;
            &&& s2.contexts == st.contexts
            &&& s2.traces.len() == st.traces.len() || {
                let rec = s2.traces.last();
                let ci = ctx_pos(st.contexts, rec.0, 0);
                &&& s2.traces.len() == st.traces.len() + 1
                &&& s2.traces.drop_last() == st.traces
                &&& 0 <= ci < st.contexts.len()
                &&& rec.2.len() == st.contexts[ci].channels.len()
                &&& forall|i: int|
                    0 <= i < rec.2.len() ==> (#[trigger] rec.2[i]).has_type(
                        st.contexts[ci].channels[i].types,
                    )
                &&& uniform(rec.2)
            }
        }),
{
    if st.is_trace {
        let c = st.current_context->Some_0;
        let ci = ctx_pos(st.contexts, c, 0);
        lemma_ctx_pos_range(st.contexts, c, 0);
        let ts = column_types(st.contexts[ci]);
        lemma_decoded_columns(ts, text);
        let s2 = characters(st, text)->Ok_0;
        assert(s2.traces.drop_last() =~= st.traces);
    }
}

proof fn lemma_ctx_pos_range(cs: Seq<ContextView>, name: Seq<char>, i: int)
    requires
        0 <= i,
    ensures
        ctx_pos(cs, name, i) == -1 || (i <= ctx_pos(cs, name, i) < cs.len() && cs[ctx_pos(cs, name, i)].name == name),
    decreases cs.len() - i,
{
    if i < cs.len() && cs[i].name != name {
        lemma_ctx_pos_range(cs, name, i + 1);
    }
}

/// The three coordinates of a canonical stroke have one value per sample: x, y and f have
/// the same length when the record's columns do.
pub proof fn lemma_stroke_lengths(chs: Seq<Channel>, data: Seq<Column>)
    requires
        uniform(data),
        stroke_values(chs, data) matches Ok(Some(_)),
    ensures
        ({
            let (x, y, f) = stroke_values(chs, data)->Ok_0->Some_0;
            x.len() == y.len() && y.len() == f.len()
        }),
{
    let ix = first_channel(chs, ChannelKind::X)->Some_0;
    let iy = first_channel(chs, ChannelKind::Y)->Some_0;
    assert(data[ix].len() == data[iy].len());
    if let Some(fi) = first_channel(chs, ChannelKind::F) {
        assert(data[ix].len() == data[fi].len());
    }
}

/// A force channel with a positive integer maximum `m` maps raw values within `[0, m]` to
/// values within `[0, 1]`.
pub proof fn lemma_force_in_unit_range(c: Channel, raw: Seq<i64>, m: i64)
    requires
        c.kind == ChannelKind::F,
        c.max_value == Some(ChannelDataEl::Integer(m)),
        m > 0,
        forall|k: int| 0 <= k < raw.len() ==> 0 <= #[trigger] raw[k] <= m,
        channel_values(seq![c], seq![Column::Ints(raw)], 0) is Ok,
    ensures
        ({
            let f = channel_values(seq![c], seq![Column::Ints(raw)], 0)->Ok_0;
            &&& f.len() == raw.len()
            &&& forall|k: int| 0 <= k < f.len() ==> (#[trigger] f[k]).within(0, 1) && f[k].wf()
        }),
{
    let q = scaling_of(c)->Ok_0;
    assert(q == Rational { num: 1, den: m as i128 });
    let f = channel_values(seq![c], seq![Column::Ints(raw)], 0)->Ok_0;
    assert forall|k: int| 0 <= k < f.len() implies (#[trigger] f[k]).within(0, 1) && f[k].wf() by {
        assert(crate::trace_data::scaled_sample(Column::Ints(raw), k, q) is Some);
        assert(f[k].num == raw[k] && f[k].den == m);
    }
}

pub open spec fn widths_nonneg(bs: Seq<BrushView>) -> bool {
    forall|i: int| 0 <= i < bs.len() ==> (#[trigger] bs[i]).stroke_width.mantissa >= 0
}

proof fn lemma_brush_pos_range(bs: Seq<BrushView>, name: Seq<char>, i: int)
    requires
        0 <= i,
    ensures
        brush_pos(bs, name, i) == -1 || (i <= brush_pos(bs, name, i) < bs.len()),
    decreases bs.len() - i,
{
    if i < bs.len() && bs[i].name != name {
        lemma_brush_pos_range(bs, name, i + 1);
    }
}

proof fn lemma_property_width(b: BrushView, attrs: Seq<XmlAttribute>)
    requires
        b.stroke_width.mantissa >= 0,
        brush_property(b, attrs) is Ok,
    ensures
        brush_property(b, attrs)->Ok_0.stroke_width.mantissa >= 0,
        b.stroke_width.mantissa > 0 ==> brush_property(b, attrs)->Ok_0.stroke_width.mantissa > 0,
{
    let r = brush_property(b, attrs)->Ok_0;
    if r.stroke_width != b.stroke_width {
        let w = r.stroke_width;
        assert(b.stroke_width.less_than(w));
        crate::number::lemma_pow10_positive(b.stroke_width.scale as nat);
        crate::number::lemma_pow10_positive(w.scale as nat);
        let pa = pow10(w.scale as nat);
        let pb = pow10(b.stroke_width.scale as nat);
        assert(w.mantissa > 0) by (nonlinear_arith)
            requires
                b.stroke_width.mantissa * pa < w.mantissa * pb,
                b.stroke_width.mantissa >= 0,
                pa >= 1,
                pb >= 1,
        ;
    }
}

/// Brush widths start at zero and only grow, and closing a brush leaves it with a positive
/// width: every step keeps widths non-negative and positive widths positive, and a step
/// on `</brush>` makes the brush it closes positive.
pub proof fn lemma_step_widths(st: ParserView, ev: XmlEvent)
    requires
        widths_nonneg(st.brushes),
        step(st, ev) is Ok,
    ensures
        ({
            let s2 = step(st, ev)->Ok_0;
            &&& s2.brushes.len() >= st.brushes.len()
            &&& widths_nonneg(s2.brushes)
            &&& forall|j: int|
                0 <= j < st.brushes.len() && st.brushes[j].stroke_width.mantissa > 0 ==> (
                #[trigger] s2.brushes[j]).stroke_width.mantissa > 0
            &&& (ev is EndElement && ev->EndElement_0@ == "brush"@) ==> s2.brushes[brush_pos(
                st.brushes,
                st.current_brush->Some_0,
                0,
            )].stroke_width.mantissa > 0
        }),
{
    reveal(step);
    reveal_strlit("brush");
    reveal_strlit("context");
    reveal_strlit("traceFormat");
    reveal_strlit("trace");
    reveal_strlit("channel");
    reveal_strlit("channelProperty");
    reveal_strlit("brushProperty");
    let s2 = step(st, ev)->Ok_0;
    match ev {
        XmlEvent::StartElement(name, attrs) => {
            let n = name@;
            let a = attrs@;
            if n == "context"@ || n == "traceFormat"@ || n == "channel"@ || n == "channelProperty"@ {
                assert(s2.brushes == st.brushes);
            } else if n == "brush"@ {
                assert forall|i: int| 0 <= i < s2.brushes.len() implies (#[trigger] s2.brushes[i]).stroke_width.mantissa >= 0 by {
                    if i < st.brushes.len() {
                        assert(s2.brushes[i] == st.brushes[i]);
                    }
                }
                assert forall|j: int|
                    0 <= j < st.brushes.len() && st.brushes[j].stroke_width.mantissa > 0 implies (
                    #[trigger] s2.brushes[j]).stroke_width.mantissa > 0 by {
                    assert(s2.brushes[j] == st.brushes[j]);
                }
            } else if n == "brushProperty"@ {
                let id = st.current_brush->Some_0;
                let i = brush_pos(st.brushes, id, 0);
                lemma_brush_pos_range(st.brushes, id, 0);
                lemma_property_width(st.brushes[i], a);
                assert forall|k: int| 0 <= k < s2.brushes.len() implies (#[trigger] s2.brushes[k]).stroke_width.mantissa >= 0 by {
                    if k != i {
                        assert(s2.brushes[k] == st.brushes[k]);
                    }
                }
                assert forall|j: int|
                    0 <= j < st.brushes.len() && st.brushes[j].stroke_width.mantissa > 0 implies (
                    #[trigger] s2.brushes[j]).stroke_width.mantissa > 0 by {
                    if j != i {
                        assert(s2.brushes[j] == st.brushes[j]);
                    }
                }
            } else {
                assert(s2.brushes == st.brushes);
            }
        },
        XmlEvent::EndElement(name) => {
            let n = name@;
            if n == "brush"@ {
                let id = st.current_brush->Some_0;
                let i = brush_pos(st.brushes, id, 0);
                lemma_brush_pos_range(st.brushes, id, 0);
                assert("brush"@.len() == 5 && "context"@.len() == 7 && "trace"@.len() == 5);
                assert("brush"@ != "context"@ && "brush"@ != "traceFormat"@);
                assert("brush"@[0] == 'b' && "trace"@[0] == 't');
                assert("brush"@ != "trace"@);
                assert(st.brushes[i].stroke_width.mantissa >= 0);
                assert(s2.brushes[i].stroke_width == closed_width(st.brushes[i].stroke_width));
                assert forall|k: int| 0 <= k < s2.brushes.len() implies (#[trigger] s2.brushes[k]).stroke_width.mantissa >= 0 by {
                    if k != i {
                        assert(s2.brushes[k] == st.brushes[k]);
                    }
                }
                assert forall|j: int|
                    0 <= j < st.brushes.len() && st.brushes[j].stroke_width.mantissa > 0 implies (
                    #[trigger] s2.brushes[j]).stroke_width.mantissa > 0 by {
                    if j != i {
                        assert(s2.brushes[j] == st.brushes[j]);
                    }
                }
            } else {
                assert(s2.brushes == st.brushes);
            }
        },
        XmlEvent::Characters(t) => {
            if st.is_trace {
                assert forall|i: int| 0 <= i < s2.brushes.len() implies (#[trigger] s2.brushes[i]).stroke_width.mantissa >= 0 by {
                    if i < st.brushes.len() {
                        assert(s2.brushes[i] == st.brushes[i]);
                    }
                }
                assert forall|j: int|
                    0 <= j < st.brushes.len() && st.brushes[j].stroke_width.mantissa > 0 implies (
                    #[trigger] s2.brushes[j]).stroke_width.mantissa > 0 by {
                    assert(s2.brushes[j] == st.brushes[j]);
                }
            }
        },
        _ => {},
    }
}

/// Whether `ev` starts an element named `name`.
pub open spec fn starts(ev: XmlEvent, name: Seq<char>) -> bool {
    ev is StartElement && ev->StartElement_0@ == name
}

/// Whether no `<channel>` comes after a `<trace>`: every context has its channels before
/// any trace is read.
pub open spec fn channels_before_traces(evs: Seq<XmlEvent>) -> bool {
    forall|i: int, j: int|
        0 <= i < j < evs.len() && starts(#[trigger] evs[i], "trace"@) ==> !starts(
            #[trigger] evs[j],
            "channel"@,
        )
}

/// Whether a record has one column per channel of the context it names, each in the
/// storage of the channel's type.
pub open spec fn record_matches(cs: Seq<ContextView>, rec: TraceRecordView) -> bool {
    let ci = ctx_pos(cs, rec.0, 0);
    &&& 0 <= ci < cs.len()
    &&& rec.2.len() == cs[ci].channels.len()
    &&& forall|j: int| 0 <= j < rec.2.len() ==> (#[trigger] rec.2[j]).has_type(cs[ci].channels[j].types)
}

pub open spec fn records_match(st: ParserView) -> bool {
    forall|i: int| 0 <= i < st.traces.len() ==> record_matches(st.contexts, #[trigger] st.traces[i])
}

proof fn lemma_ctx_pos_same_names(a: Seq<ContextView>, b: Seq<ContextView>, name: Seq<char>, i: int)
    requires
        0 <= i,
        a.len() <= b.len(),
        forall|k: int| 0 <= k < a.len() ==> (#[trigger] a[k]).name == b[k].name,
        0 <= ctx_pos(a, name, i) < a.len(),
    ensures
        ctx_pos(b, name, i) == ctx_pos(a, name, i),
    decreases a.len() - i,
{
    lemma_ctx_pos_range(a, name, i);
    if i < a.len() && a[i].name != name {
        lemma_ctx_pos_same_names(a, b, name, i + 1);
    }
}

/// A record that matches its context keeps matching when contexts are added after it or
/// channels change their resolution but not their number or type.
proof fn lemma_record_kept(a: Seq<ContextView>, b: Seq<ContextView>, rec: TraceRecordView)
    requires
        record_matches(a, rec),
        a.len() <= b.len(),
        forall|k: int| 0 <= k < a.len() ==> (#[trigger] a[k]).name == b[k].name,
        forall|k: int| 0 <= k < a.len() ==> (#[trigger] a[k]).channels.len() == b[k].channels.len(),
        forall|k: int, j: int|
            0 <= k < a.len() && 0 <= j < a[k].channels.len() ==> (#[trigger] a[k].channels[j]).types
                == b[k].channels[j].types,
    ensures
        record_matches(b, rec),
{
    let ci = ctx_pos(a, rec.0, 0);
    lemma_ctx_pos_same_names(a, b, rec.0, 0);
    assert forall|j: int| 0 <= j < rec.2.len() implies (#[trigger] rec.2[j]).has_type(b[ci].channels[j].types) by {
        assert(a[ci].channels[j].types == b[ci].channels[j].types);
    }
}

proof fn lemma_step_records(st: ParserView, ev: XmlEvent)
    requires
        records_match(st),
        step(st, ev) is Ok,
        !(starts(ev, "channel"@) && st.traces.len() > 0),
    ensures
        records_match(step(st, ev)->Ok_0),
        (step(st, ev)->Ok_0.traces.len() > 0 || step(st, ev)->Ok_0.is_trace) ==> (st.traces.len() > 0
            || st.is_trace || starts(ev, "trace"@)),
{
    reveal(step);
    reveal_strlit("brush");
    reveal_strlit("context");
    reveal_strlit("traceFormat");
    reveal_strlit("trace");
    reveal_strlit("channel");
    reveal_strlit("channelProperty");
    reveal_strlit("brushProperty");
    assert("context"@.len() == 7 && "traceFormat"@.len() == 11 && "channel"@.len() == 7);
    assert("trace"@.len() == 5 && "brush"@.len() == 5 && "channelProperty"@.len() == 15);
    assert("brushProperty"@.len() == 13);
    assert("context"@[1] == 'o' && "channel"@[1] == 'h' && "trace"@[0] == 't' && "brush"@[0] == 'b');
    assert("context"@ != "traceFormat"@ && "context"@ != "channel"@ && "context"@ != "trace"@);
    assert("channel"@ != "channelProperty"@ && "channel"@ != "trace"@ && "channel"@ != "brush"@);
    assert("trace"@ != "traceFormat"@ && "trace"@ != "brush"@ && "brush"@ != "brushProperty"@);
    let s2 = step(st, ev)->Ok_0;
    match ev {
        XmlEvent::StartElement(name, attrs) => {
            let n = name@;
            let a = attrs@;
            if n == "context"@ {
                assert forall|i: int| 0 <= i < s2.traces.len() implies record_matches(s2.contexts, #[trigger] s2.traces[i]) by {
                    lemma_record_kept(st.contexts, s2.contexts, st.traces[i]);
                }
            } else if n == "traceFormat"@ {
                if st.contexts.len() == 0 {
                    assert(st.traces.len() == 0) by {
                        if st.traces.len() > 0 {
                            assert(record_matches(st.contexts, st.traces[0]));
                        }
                    }
                } else {
                    assert(s2 == st);
                }
            } else if n == "channel"@ {
                assert(s2.traces == st.traces);
            } else if n == "channelProperty"@ {
                let ids = attrs_named(a, property_attr_names());
                if resolution_property(ids) && st.current_context is Some && ctx_pos(
                    st.contexts,
                    st.current_context->Some_0,
                    0,
                ) >= 0 {
                    let ci = ctx_pos(st.contexts, st.current_context->Some_0, 0);
                    lemma_ctx_pos_range(st.contexts, st.current_context->Some_0, 0);
                    let chs = st.contexts[ci].channels;
                    let kind = lookup(ids[0], |x| kind_named(x), VocabularyKind::Kind)->Ok_0;
                    crate::context::lemma_channel_pos_back_range(chs, kind, chs.len() - 1);
                    let jj = last_channel(chs, kind)->Some_0;
                    assert(s2.contexts.len() == st.contexts.len());
                    assert forall|k: int| 0 <= k < st.contexts.len() implies (#[trigger] st.contexts[k]).name
                        == s2.contexts[k].name && st.contexts[k].channels.len()
                        == s2.contexts[k].channels.len() by {}
                    assert forall|k: int, j: int|
                        0 <= k < st.contexts.len() && 0 <= j < st.contexts[k].channels.len() implies (
                        #[trigger] st.contexts[k].channels[j]).types == s2.contexts[k].channels[j].types by {
                        if k == ci && j == jj {
                        }
                    }
                    assert forall|i: int| 0 <= i < s2.traces.len() implies record_matches(s2.contexts, #[trigger] s2.traces[i]) by {
                        lemma_record_kept(st.contexts, s2.contexts, st.traces[i]);
                    }
                } else {
                    assert(s2 == st);
                }
            } else {
                assert(s2.contexts == st.contexts && s2.traces == st.traces);
            }
        },
        XmlEvent::EndElement(name) => {
            assert(s2.contexts == st.contexts && s2.traces == st.traces);
        },
        XmlEvent::Characters(t) => {
            if st.is_trace {
                lemma_record_matches_context(st, t@);
                assert forall|i: int| 0 <= i < s2.traces.len() implies record_matches(s2.contexts, #[trigger] s2.traces[i]) by {
                    if i < st.traces.len() {
                        assert(s2.traces[i] == s2.traces.drop_last()[i]);
                    }
                }
            }
        },
        _ => {},
    }
}

proof fn lemma_run_records(st: ParserView, evs: Seq<XmlEvent>, i: int)
    requires
        0 <= i,
        records_match(st),
        channels_before_traces(evs),
        run(st, evs, i) is Ok,
        (st.traces.len() > 0 || st.is_trace) ==> exists|k: int|
            0 <= k < i && k < evs.len() && starts(#[trigger] evs[k], "trace"@),
    ensures
        records_match(run(st, evs, i)->Ok_0),
    decreases evs.len() - i,
{
    if i < evs.len() {
        let ev = evs[i];
        if starts(ev, "channel"@) && st.traces.len() > 0 {
            let k = choose|k: int| 0 <= k < i && k < evs.len() && starts(#[trigger] evs[k], "trace"@);
            assert(!starts(evs[i], "channel"@));
        }
        lemma_step_records(st, ev);
        let s2 = step(st, ev)->Ok_0;
        if s2.traces.len() > 0 || s2.is_trace {
            if starts(ev, "trace"@) {
                assert(starts(evs[i], "trace"@));
            } else {
                let k = choose|k: int| 0 <= k < i && k < evs.len() && starts(#[trigger] evs[k], "trace"@);
                assert(starts(evs[k], "trace"@));
            }
        }
        lemma_run_records(s2, evs, i + 1);
    }
}

/// In a document whose channels all come before its traces, every trace record of the
/// result has one column per channel of its context, each in the storage of the channel's
/// type.
pub proof fn lemma_parse_records_match(evs: Seq<XmlEvent>)
    requires
        channels_before_traces(evs),
        run(initial_parser(), evs, 0) is Ok,
    ensures
        records_match(run(initial_parser(), evs, 0)->Ok_0),
{
    lemma_run_records(initial_parser(), evs, 0);
}

pub open spec fn ends(ev: XmlEvent, name: Seq<char>) -> bool {
    ev is EndElement && ev->EndElement_0@ == name
}

/// Events that may not come between a `<brush>` and its `</brush>`.
pub open spec fn interrupts(ev: XmlEvent) -> bool {
    starts(ev, "brush"@) || starts(ev, "trace"@) || ends(ev, "trace"@) || ends(ev, "brush"@)
        || ev is Characters
}

/// Whether a `</brush>` comes at or after `p` with nothing that interrupts a brush before it.
pub open spec fn closes_from(evs: Seq<XmlEvent>, p: int) -> bool {
    exists|j: int|
        p <= j < evs.len() && ends(#[trigger] evs[j], "brush"@) && forall|m: int|
            p <= m < j ==> !interrupts(#[trigger] evs[m])
}

/// Whether every `<brush>` is closed before another brush, a trace or text begins.
pub open spec fn brushes_closed(evs: Seq<XmlEvent>) -> bool {
    forall|i: int| 0 <= i < evs.len() && starts(#[trigger] evs[i], "brush"@) ==> closes_from(evs, i + 1)
}

/// Every brush of width zero is the current brush, and its `</brush>` is still to come.
pub open spec fn pending_ok(st: ParserView, evs: Seq<XmlEvent>, p: int) -> bool {
    forall|k: int|
        0 <= k < st.brushes.len() && (#[trigger] st.brushes[k]).stroke_width.mantissa == 0 ==> {
            &&& st.current_brush == Some(st.brushes[k].name)
            &&& brush_pos(st.brushes, st.brushes[k].name, 0) == k
            &&& closes_from(evs, p)
        }
}

proof fn lemma_brush_pos_push(bs: Seq<BrushView>, b: BrushView, name: Seq<char>, i: int)
    requires
        0 <= i <= bs.len(),
    ensures
        brush_pos(bs, name, i) >= 0 ==> brush_pos(bs.push(b), name, i) == brush_pos(bs, name, i),
        brush_pos(bs, name, i) < 0 && b.name == name ==> brush_pos(bs.push(b), name, i) == bs.len(),
    decreases bs.len() - i,
{
    if i < bs.len() {
        assert(bs.push(b)[i] == bs[i]);
        if bs[i].name != name {
            lemma_brush_pos_push(bs, b, name, i + 1);
        }
    } else {
        assert(bs.push(b)[i] == b);
    }
}

proof fn lemma_brush_pos_update(bs: Seq<BrushView>, k: int, b: BrushView, name: Seq<char>, i: int)
    requires
        0 <= i,
        0 <= k < bs.len(),
        b.name == bs[k].name,
    ensures
        brush_pos(bs.update(k, b), name, i) == brush_pos(bs, name, i),
    decreases bs.len() - i,
{
    if i < bs.len() {
        assert(bs.update(k, b)[i].name == bs[i].name);
        if bs[i].name != name {
            lemma_brush_pos_update(bs, k, b, name, i + 1);
        }
    }
}

proof fn lemma_step_pending(st: ParserView, evs: Seq<XmlEvent>, p: int)
    requires
        0 <= p < evs.len(),
        widths_nonneg(st.brushes),
        pending_ok(st, evs, p),
        brushes_closed(evs),
        step(st, evs[p]) is Ok,
    ensures
        widths_nonneg(step(st, evs[p])->Ok_0.brushes),
        pending_ok(step(st, evs[p])->Ok_0, evs, p + 1),
{
    let ev = evs[p];
    lemma_step_widths(st, ev);
    reveal(step);
    reveal_strlit("brush");
    reveal_strlit("context");
    reveal_strlit("traceFormat");
    reveal_strlit("trace");
    reveal_strlit("channel");
    reveal_strlit("channelProperty");
    reveal_strlit("brushProperty");
    assert("context"@.len() == 7 && "traceFormat"@.len() == 11 && "channel"@.len() == 7);
    assert("trace"@.len() == 5 && "brush"@.len() == 5 && "channelProperty"@.len() == 15);
    assert("brushProperty"@.len() == 13);
    assert("context"@[1] == 'o' && "channel"@[1] == 'h' && "trace"@[0] == 't' && "brush"@[0] == 'b');
    let s2 = step(st, ev)->Ok_0;
    if exists|k: int| 0 <= k < st.brushes.len() && (#[trigger] st.brushes[k]).stroke_width.mantissa == 0 {
        let k = choose|k: int| 0 <= k < st.brushes.len() && (#[trigger] st.brushes[k]).stroke_width.mantissa == 0;
        let name = st.brushes[k].name;
        assert(st.current_brush == Some(name));
        assert(brush_pos(st.brushes, name, 0) == k);
        assert(closes_from(evs, p));
        let j = choose|j: int|
            p <= j < evs.len() && ends(#[trigger] evs[j], "brush"@) && forall|m: int|
                p <= m < j ==> !interrupts(#[trigger] evs[m]);
        // Every brush of width zero is the one at position k.
        assert forall|m: int| 0 <= m < st.brushes.len() && (#[trigger] st.brushes[m]).stroke_width.mantissa == 0 implies m == k by {
            assert(st.brushes[m].name == name);
        }
        if j == p {
            assert(ends(ev, "brush"@));
            assert(s2.brushes.len() == st.brushes.len());
            assert forall|m: int| 0 <= m < s2.brushes.len() implies (#[trigger] s2.brushes[m]).stroke_width.mantissa != 0 by {
                if m != k {
                    assert(st.brushes[m].stroke_width.mantissa != 0);
                }
            }
        } else {
            assert(!interrupts(evs[p]));
            match ev {
                XmlEvent::StartElement(nm, attrs) => {
                    let n = nm@;
                    if n == "brushProperty"@ {
                        let b2 = brush_property(st.brushes[k], attrs@)->Ok_0;
                        assert(s2.brushes == st.brushes.update(k, b2));
                        assert(b2.name == name) by {
                            reveal_strlit("width");
                        }
                        assert forall|m: int| 0 <= m < s2.brushes.len() && (#[trigger] s2.brushes[m]).stroke_width.mantissa == 0 implies {
                            &&& s2.current_brush == Some(s2.brushes[m].name)
                            &&& brush_pos(s2.brushes, s2.brushes[m].name, 0) == m
                            &&& closes_from(evs, p + 1)
                        } by {
                            if m != k {
                                assert(s2.brushes[m] == st.brushes[m]);
                            }
                            lemma_brush_pos_update(st.brushes, k, b2, name, 0);
                            assert(evs[j] == evs[j]);
                            assert(forall|q: int| p + 1 <= q < j ==> !interrupts(#[trigger] evs[q]));
                        }
                    } else if n == "context"@ || n == "traceFormat"@ || n == "channel"@ || n == "channelProperty"@ {
                        assert(s2.brushes == st.brushes && s2.current_brush == st.current_brush);
                        assert(forall|q: int| p + 1 <= q < j ==> !interrupts(#[trigger] evs[q]));
                    } else {
                        assert(s2 == st);
                        assert(forall|q: int| p + 1 <= q < j ==> !interrupts(#[trigger] evs[q]));
                    }
                },
                XmlEvent::EndElement(nm) => {
                    assert(s2.brushes == st.brushes && s2.current_brush == st.current_brush);
                    assert(forall|q: int| p + 1 <= q < j ==> !interrupts(#[trigger] evs[q]));
                },
                _ => {
                    assert(s2 == st);
                    assert(forall|q: int| p + 1 <= q < j ==> !interrupts(#[trigger] evs[q]));
                },
            }
        }
    } else {
        // No brush of width zero: only a new `<brush>` makes one.
        match ev {
            XmlEvent::StartElement(nm, attrs) => {
                let n = nm@;
                if n == "brush"@ {
                    let id = or_default(attr_value(attrs@, "id"@), "br0"@);
                    assert(brush_pos(st.brushes, id, 0) < 0);
                    lemma_brush_pos_push(st.brushes, init_brush_view(id), id, 0);
                    assert(closes_from(evs, p + 1));
                    assert forall|m: int| 0 <= m < s2.brushes.len() && (#[trigger] s2.brushes[m]).stroke_width.mantissa == 0 implies m == st.brushes.len() by {
                        if m < st.brushes.len() {
                            assert(s2.brushes[m] == st.brushes[m]);
                        }
                    }
                } else if n == "brushProperty"@ {
                    let id = st.current_brush->Some_0;
                    let i = brush_pos(st.brushes, id, 0);
                    lemma_brush_pos_range(st.brushes, id, 0);
                    assert(st.brushes[i].stroke_width.mantissa != 0);
                    lemma_property_width(st.brushes[i], attrs@);
                    assert forall|m: int| 0 <= m < s2.brushes.len() implies (#[trigger] s2.brushes[m]).stroke_width.mantissa != 0 by {
                        if m != i {
                            assert(st.brushes[m].stroke_width.mantissa != 0);
                        }
                    }
                } else if n == "context"@ || n == "traceFormat"@ || n == "channel"@ || n == "channelProperty"@ || n == "trace"@ {
                    assert(s2.brushes == st.brushes);
                } else {
                    assert(s2 == st);
                }
            },
            XmlEvent::EndElement(nm) => {
                if nm@ == "brush"@ {
                    lemma_brush_pos_range(st.brushes, st.current_brush->Some_0, 0);
                } else {
                    assert(s2.brushes == st.brushes);
                }
                assert(s2.brushes.len() == st.brushes.len());
                assert forall|m: int| 0 <= m < s2.brushes.len() implies (#[trigger] s2.brushes[m]).stroke_width.mantissa != 0 by {
                    assert(st.brushes[m].stroke_width.mantissa != 0);
                }
            },
            XmlEvent::Characters(t) => {
                assert forall|m: int| 0 <= m < s2.brushes.len() implies (#[trigger] s2.brushes[m]).stroke_width.mantissa != 0 by {
                    if m < st.brushes.len() {
                        assert(st.brushes[m].stroke_width.mantissa != 0);
                    }
                }
            },
            _ => {},
        }
    }
}

proof fn lemma_run_widths(st: ParserView, evs: Seq<XmlEvent>, p: int)
    requires
        0 <= p <= evs.len(),
        widths_nonneg(st.brushes),
        pending_ok(st, evs, p),
        brushes_closed(evs),
        run(st, evs, p) is Ok,
    ensures
        forall|k: int|
            0 <= k < run(st, evs, p)->Ok_0.brushes.len() ==> (#[trigger] run(
                st,
                evs,
                p,
            )->Ok_0.brushes[k]).stroke_width.mantissa > 0,
    decreases evs.len() - p,
{
    if p < evs.len() {
        lemma_step_pending(st, evs, p);
        lemma_run_widths(step(st, evs[p])->Ok_0, evs, p + 1);
    } else {
        assert forall|k: int| 0 <= k < st.brushes.len() implies (#[trigger] st.brushes[k]).stroke_width.mantissa > 0 by {
            if st.brushes[k].stroke_width.mantissa == 0 {
                assert(closes_from(evs, p));
            }
        }
    }
}

/// In a document where each `<brush>` is closed before another brush, a trace or text
/// begins, every brush of the result has a positive width.
pub proof fn lemma_parsed_widths_positive(evs: Seq<XmlEvent>)
    requires
        brushes_closed(evs),
        run(initial_parser(), evs, 0) is Ok,
    ensures
        forall|k: int|
            0 <= k < run(initial_parser(), evs, 0)->Ok_0.brushes.len() ==> (#[trigger] run(
                initial_parser(),
                evs,
                0,
            )->Ok_0.brushes[k]).stroke_width.mantissa > 0,
{
    lemma_run_widths(initial_parser(), evs, 0);
}

} // verus!
