//! The emitter: a definitions block with one context and the distinct brushes, then one
//! `<trace>` per stroke.
use vstd::prelude::*;

use crate::brushes::{add_brush_spec, normalized, Brush, BrushCollection, BrushCollectionView, BrushView, PositiveFiniteFloat, brush_id};
use crate::context::{Channel, Context, ContextView};
use crate::error::InkError;
use crate::number::{mul_pow10, pow10, pow10_exec, spec_mul_pow10, Decimal, Rational};
use crate::text::{chars_of, int_text, int_to_text, nat_text, string_of};
use crate::trace_data::{ChannelDataEl, Column, FormattedStroke, LexState, ValueModifier, lex_char, lex_columns, push_value};
use crate::text::is_digit;
use crate::parser::{stroke_view, stroke_views, StrokeView};
use crate::xml_helpers::XmlAttribute;
use xml::writer::{EmitterConfig, XmlEvent as WriterEvent};

verus! {

/// One event handed to the XML emitter.
#[derive(Clone, Debug)]
pub enum XmlOut {
    /// A start tag with its attributes.
    Start(String, Vec<XmlAttribute>),
    /// The end tag of the innermost open element.
    End,
    Text(String),
}

/// The content of an `XmlOut`.
pub enum OutView {
    Start(Seq<char>, Seq<(Seq<char>, Seq<char>)>),
    End,
    Text(Seq<char>),
}

pub open spec fn attr_views(a: Seq<XmlAttribute>) -> Seq<(Seq<char>, Seq<char>)> {
    a.map_values(|x: XmlAttribute| (x.name@, x.value@))
}

impl View for XmlOut {
    type V = OutView;

    open spec fn view(&self) -> OutView {
        match self {
            XmlOut::Start(n, a) => OutView::Start(n@, attr_views(a@)),
            XmlOut::End => OutView::End,
            XmlOut::Text(t) => OutView::Text(t@),
        }
    }
}

pub open spec fn out_views(v: Seq<XmlOut>) -> Seq<OutView> {
    v.map_values(|e: XmlOut| e@)
}

/// The bytes the emitter writes for a sequence of events, or its message when it refuses
/// them.
pub uninterp spec fn xml_render_of(events: Seq<OutView>, namespace: Seq<char>) -> Result<
    Seq<u8>,
    Seq<char>,
>;

/// Relies on `xml::writer::EventWriter` (xml-rs), without indentation or document
/// declaration: writes the events in order, each start tag in the default namespace
/// `namespace`, declared once at the root. The bytes depend on the events alone.
#[verifier::external_body]
fn render_xml(events: &Vec<XmlOut>, namespace: &str) -> (r: Result<Vec<u8>, String>)
    ensures
        match r {
            Ok(b) => xml_render_of(out_views(events@), namespace@) == Ok::<Seq<u8>, Seq<char>>(b@),
            Err(m) => xml_render_of(out_views(events@), namespace@) == Err::<Seq<u8>, Seq<char>>(m@),
        },
{
    let mut out: Vec<u8> = Vec::new();
    let mut w = EmitterConfig::new().perform_indent(false).write_document_declaration(false).create_writer(&mut out);
    for ev in events {
        let done = match ev {
            XmlOut::Start(name, attrs) => w.write(attrs.iter().fold(WriterEvent::start_element(name.as_str()), |e, a| e.attr(a.name.as_str(), &a.value)).default_ns(namespace)),
            XmlOut::End => w.write(WriterEvent::end_element()),
            XmlOut::Text(t) => w.write(WriterEvent::characters(t)),
        };
        if let Err(e) = done {
            return Err(e.to_string());
        }
    }
    Ok(out)
}

/// `a / b` rounded to the nearest integer, halves away from zero.
pub open spec fn round_div(a: int, b: int) -> int
    decreases (if a < 0 {
        1int
    } else {
        0int
    }),
{
    if b <= 0 {
        0
    } else if a >= 0 {
        if 2 * (a % b) >= b {
            a / b + 1
        } else {
            a / b
        }
    } else {
        -round_div(-a, b)
    }
}

/// The integer nearest to `q * m`, when the product fits.
pub open spec fn quantize(q: Rational, m: int) -> Option<int> {
    let a = q.num * m;
    if i128::MIN < a <= i128::MAX {
        Some(round_div(a, q.den as int))
    } else {
        None
    }
}

/// The rounded value is within half a unit of the exact one: `|round(a/b) * b - a| <= b/2`.
pub proof fn lemma_round_div_error(a: int, b: int)
    requires
        b > 0,
    ensures
        -b <= 2 * (round_div(a, b) * b - a) <= b,
    decreases (if a < 0 {
        1int
    } else {
        0int
    }),
{
    if a >= 0 {
        vstd::arithmetic::div_mod::lemma_fundamental_div_mod(a, b);
        vstd::arithmetic::div_mod::lemma_mod_pos_bound(a, b);
        let q = a / b;
        let r = a % b;
        assert(a == b * q + r);
        if 2 * r >= b {
            assert((q + 1) * b - a == b - r) by (nonlinear_arith)
                requires
                    a == b * q + r,
            ;
        } else {
            assert(q * b - a == -r) by (nonlinear_arith)
                requires
                    a == b * q + r,
            ;
        }
    } else {
        lemma_round_div_error(-a, b);
        assert(round_div(a, b) * b - a == -(round_div(-a, b) * b - (-a))) by (nonlinear_arith)
            requires
                round_div(a, b) == -round_div(-a, b),
        ;
    }
}

/// The integer nearest to `q * m`.
fn quantize_exec(q: Rational, m: i128) -> (r: Option<i128>)
    requires
        q.wf(),
        0 < m <= 32767,
    ensures
        match quantize(q, m as int) {
            Some(v) => r == Some(v as i128) && i128::MIN <= v <= i128::MAX,
            None => r is None,
        },
{
    let a = match q.num.checked_mul(m) {
        Some(a) => a,
        None => {
            return None;
        },
    };
    if a == i128::MIN {
        return None;
    }
    let neg = a < 0;
    let ua: u128 = if neg {
        (-a) as u128
    } else {
        a as u128
    };
    let ub: u128 = q.den as u128;
    let qq = ua / ub;
    let rr = ua % ub;
    let v: u128 = if 2 * rr >= ub {
        qq + 1
    } else {
        qq
    };
    proof {
        let aa: int = if neg {
            -(a as int)
        } else {
            a as int
        };
        assert(aa == ua as int);
        vstd::arithmetic::div_mod::lemma_fundamental_div_mod(aa, ub as int);
        vstd::arithmetic::div_mod::lemma_mod_pos_bound(aa, ub as int);
        assert(qq as int == aa / (ub as int));
        assert(rr as int == aa % (ub as int));
        assert(qq as int <= aa) by {
            vstd::arithmetic::div_mod::lemma_div_is_ordered_by_denominator(aa, 1, ub as int);
        }
        if 2 * rr >= ub {
            assert(rr >= 1);
            assert(aa == (ub as int) * (qq as int) + (rr as int));
            assert((ub as int) * (qq as int) >= qq as int) by (nonlinear_arith)
                requires
                    ub >= 1,
                    qq >= 0,
            ;
        }
        assert(v as int <= aa);
        assert(round_div(aa, q.den as int) == v as int);
    }
    if neg {
        Some(-(v as i128))
    } else {
        Some(v as i128)
    }
}

/// Appends the characters of `s`.
fn push_str(out: &mut Vec<char>, s: &str)
    ensures
        final(out)@ == old(out)@ + s@,
{
    let mut cs = chars_of(s);
    out.append(&mut cs);
}

/// The decimal text of an integer.
fn int_chars(v: i128) -> (r: Vec<char>)
    ensures
        r@ == int_text(v as int),
{
    chars_of(int_to_text(v).as_str())
}

/// `t` preceded by enough zeros to have `s` characters.
pub open spec fn zero_pad(t: Seq<char>, s: nat) -> Seq<char> {
    if t.len() < s {
        Seq::new((s - t.len()) as nat, |i: int| '0') + t
    } else {
        t
    }
}

/// The shortest decimal text of a number: `12.5`, `-0.25`, `3`.
pub open spec fn decimal_text(d: Decimal) -> Seq<char> {
    let n = normalized(d);
    let a: int = if n.mantissa < 0 {
        -n.mantissa
    } else {
        n.mantissa as int
    };
    let s = n.scale as nat;
    if s == 0 {
        int_text(n.mantissa as int)
    } else {
        (if n.mantissa < 0 {
            seq!['-']
        } else {
            Seq::empty()
        }) + nat_text((a / pow10(s)) as nat) + seq!['.'] + zero_pad(
            nat_text((a % pow10(s)) as nat),
            s,
        )
    }
}

/// The shortest decimal text of `d`.
fn decimal_chars(d: Decimal) -> (r: Vec<char>)
    requires
        d.wf(),
    ensures
        r@ == decimal_text(d),
{
    let n = PositiveFiniteFloat::new(d).stroke_width;
    proof {
        let a0: nat = if d.mantissa < 0 {
            (-d.mantissa) as nat
        } else {
            d.mantissa as nat
        };
        crate::brushes::lemma_strip_bounds(a0, d.scale as nat);
    }
    assert(n == normalized(d));
    if n.scale == 0 {
        return int_chars(n.mantissa as i128);
    }
    let neg = n.mantissa < 0;
    let a: i128 = if neg {
        -(n.mantissa as i128)
    } else {
        n.mantissa as i128
    };
    let p = pow10_exec(n.scale);
    let ip = a / p;
    let fp = a % p;
    let mut out: Vec<char> = Vec::new();
    if neg {
        out.push('-');
    }
    let mut ic = int_chars(ip);
    out.append(&mut ic);
    out.push('.');
    let fc = int_chars(fp);
    let mut k: usize = fc.len();
    let s = n.scale as usize;
    let ghost before = out@;
    while k < s
        invariant
            fc@.len() <= k,
            k <= s || k == fc@.len(),
            out@ == before + Seq::new((k - fc@.len()) as nat, |i: int| '0'),
        decreases s - k,
    {
        out.push('0');
        k = k + 1;
        assert(out@ =~= before + Seq::new((k - fc@.len()) as nat, |i: int| '0'));
    }
    let mut fc2 = fc;
    out.append(&mut fc2);
    proof {
        let sign: Seq<char> = if neg {
            seq!['-']
        } else {
            Seq::empty()
        };
        assert(int_text(ip as int) == nat_text(ip as nat));
        assert(int_text(fp as int) == nat_text(fp as nat));
        if fc@.len() < s {
            assert(out@ =~= sign + nat_text(ip as nat) + seq!['.'] + zero_pad(nat_text(fp as nat), s as nat));
        } else {
            assert(Seq::new((k - fc@.len()) as nat, |i: int| '0') =~= Seq::<char>::empty());
            assert(out@ =~= sign + nat_text(ip as nat) + seq!['.'] + zero_pad(nat_text(fp as nat), s as nat));
        }
    }
    out
}

pub open spec fn hex_digit(v: int) -> char {
    if v < 10 {
        (('0' as int) + v) as char
    } else {
        (('A' as int) + v - 10) as char
    }
}

/// A color written `#RRGGBB` in upper case.
pub open spec fn color_text(c: (u8, u8, u8)) -> Seq<char> {
    seq![
        '#',
        hex_digit(c.0 as int / 16),
        hex_digit(c.0 as int % 16),
        hex_digit(c.1 as int / 16),
        hex_digit(c.1 as int % 16),
        hex_digit(c.2 as int / 16),
        hex_digit(c.2 as int % 16),
    ]
}

fn hex_digit_exec(v: u8) -> (r: char)
    requires
        v < 16,
    ensures
        r == hex_digit(v as int),
{
    if v < 10 {
        (('0' as u8) + v) as char
    } else {
        (('A' as u8) + v - 10) as char
    }
}

fn color_chars(c: (u8, u8, u8)) -> (r: Vec<char>)
    ensures
        r@ == color_text(c),
{
    let mut out: Vec<char> = Vec::new();
    out.push('#');
    out.push(hex_digit_exec(c.0 / 16));
    out.push(hex_digit_exec(c.0 % 16));
    out.push(hex_digit_exec(c.1 / 16));
    out.push(hex_digit_exec(c.1 % 16));
    out.push(hex_digit_exec(c.2 / 16));
    out.push(hex_digit_exec(c.2 % 16));
    assert(out@ =~= color_text(c));
    out
}

/// One sample as written in a trace: x and y in thousandths of a centimetre and the force
/// in 32767ths, each rounded.
pub open spec fn sample_text(x: Rational, y: Rational, f: Rational) -> Option<Seq<char>> {
    match (quantize(x, 1000), quantize(y, 1000), quantize(f, 32767)) {
        (Some(a), Some(b), Some(c)) => Some(
            int_text(a) + seq![' '] + int_text(b) + seq![' '] + int_text(c),
        ),
        _ => None,
    }
}

/// The first `n` samples written and joined by commas.
pub open spec fn payload_text(x: Seq<Rational>, y: Seq<Rational>, f: Seq<Rational>, n: int) -> Option<
    Seq<char>,
>
    decreases n,
{
    if n <= 0 {
        Some(Seq::empty())
    } else {
        match payload_text(x, y, f, n - 1) {
            None => None,
            Some(p) => match sample_text(x[n - 1], y[n - 1], f[n - 1]) {
                None => None,
                Some(t) => Some(
                    if n == 1 {
                        t
                    } else {
                        p + seq![','] + t
                    },
                ),
            },
        }
    }
}

/// The trace payload of a stroke.
fn payload_chars(st: &FormattedStroke) -> (r: Option<Vec<char>>)
    requires
        st.y@.len() == st.x@.len(),
        st.f@.len() == st.x@.len(),
        forall|k: int| 0 <= k < st.x@.len() ==> (#[trigger] st.x@[k]).wf(),
        forall|k: int| 0 <= k < st.y@.len() ==> (#[trigger] st.y@[k]).wf(),
        forall|k: int| 0 <= k < st.f@.len() ==> (#[trigger] st.f@[k]).wf(),
    ensures
        match payload_text(st.x@, st.y@, st.f@, st.x@.len() as int) {
            Some(t) => r matches Some(v) && v@ == t,
            None => r is None,
        },
{
    let n = st.x.len();
    let mut out: Vec<char> = Vec::new();
    let mut k: usize = 0;
    while k < n
        invariant
            k <= n == st.x@.len(),
            st.y@.len() == n,
            st.f@.len() == n,
            forall|j: int| 0 <= j < n ==> (#[trigger] st.x@[j]).wf(),
            forall|j: int| 0 <= j < n ==> (#[trigger] st.y@[j]).wf(),
            forall|j: int| 0 <= j < n ==> (#[trigger] st.f@[j]).wf(),
            payload_text(st.x@, st.y@, st.f@, k as int) == Some(out@),
        decreases n - k,
    {
        let a = match quantize_exec(st.x[k], 1000) {
            Some(a) => a,
            None => {
                proof {
                    lemma_payload_none_stays(st.x@, st.y@, st.f@, k + 1, n as int);
                }
                return None;
            },
        };
        let b = match quantize_exec(st.y[k], 1000) {
            Some(b) => b,
            None => {
                proof {
                    lemma_payload_none_stays(st.x@, st.y@, st.f@, k + 1, n as int);
                }
                return None;
            },
        };
        let c = match quantize_exec(st.f[k], 32767) {
            Some(c) => c,
            None => {
                proof {
                    lemma_payload_none_stays(st.x@, st.y@, st.f@, k + 1, n as int);
                }
                return None;
            },
        };
        let ghost prev = out@;
        if k > 0 {
            out.push(',');
        }
        let mut ta = int_chars(a);
        out.append(&mut ta);
        out.push(' ');
        let mut tb = int_chars(b);
        out.append(&mut tb);
        out.push(' ');
        let mut tc = int_chars(c);
        out.append(&mut tc);
        proof {
            let t = int_text(a as int) + seq![' '] + int_text(b as int) + seq![' '] + int_text(c as int);
            assert(sample_text(st.x@[k as int], st.y@[k as int], st.f@[k as int]) == Some(t));
            if k == 0 {
                assert(prev =~= Seq::<char>::empty());
                assert(out@ =~= t);
            } else {
                assert(out@ =~= prev + seq![','] + t);
            }
        }
        k = k + 1;
    }
    Some(out)
}

proof fn lemma_payload_none_stays(x: Seq<Rational>, y: Seq<Rational>, f: Seq<Rational>, k: int, n: int)
    requires
        0 <= k <= n,
        payload_text(x, y, f, k) is None,
    ensures
        payload_text(x, y, f, n) is None,
    decreases n - k,
{
    if k < n {
        lemma_payload_none_stays(x, y, f, k, n - 1);
    }
}

pub open spec fn el_text(m: ChannelDataEl) -> Seq<char> {
    match m {
        ChannelDataEl::Integer(v) => int_text(v as int),
        ChannelDataEl::Double(d) => decimal_text(d),
        ChannelDataEl::Bool => "1"@,
    }
}

pub open spec fn start_tag(name: Seq<char>, attrs: Seq<(Seq<char>, Seq<char>)>) -> OutView {
    OutView::Start(name, attrs)
}

/// `<channel name type [max] unit/>`.
pub open spec fn channel_events(c: Channel) -> Seq<OutView> {
    let attrs = seq![("name"@, c.kind.spec_name()), ("type"@, c.types.spec_name())] + (match c.max_value {
        Some(m) => seq![("max"@, el_text(m))],
        None => Seq::empty(),
    }) + seq![("unit"@, c.unit_channel.spec_name())];
    seq![start_tag("channel"@, attrs), OutView::End]
}

/// `<channelProperty channel name="resolution" value units/>`.
pub open spec fn property_events(c: Channel) -> Seq<OutView> {
    seq![
        start_tag(
            "channelProperty"@,
            seq![
                ("channel"@, c.kind.spec_name()),
                ("name"@, "resolution"@),
                ("value"@, decimal_text(c.resolution_value)),
                ("units"@, c.unit_resolution.spec_name()),
            ],
        ),
        OutView::End,
    ]
}

pub open spec fn channels_events(chs: Seq<Channel>, n: int) -> Seq<OutView>
    decreases n,
{
    if n <= 0 {
        Seq::empty()
    } else {
        channels_events(chs, n - 1) + channel_events(chs[n - 1])
    }
}

pub open spec fn properties_events(chs: Seq<Channel>, n: int) -> Seq<OutView>
    decreases n,
{
    if n <= 0 {
        Seq::empty()
    } else {
        properties_events(chs, n - 1) + property_events(chs[n - 1])
    }
}

/// A context: its source, its trace format and its channel properties.
pub open spec fn context_events(c: ContextView) -> Seq<OutView> {
    let n = c.channels.len() as int;
    seq![
        start_tag("context"@, seq![("xml:id"@, c.name)]),
        start_tag("inkSource"@, seq![("xml:id"@, "inkSrc0"@)]),
        start_tag("traceFormat"@, Seq::empty()),
    ] + channels_events(c.channels, n) + seq![
        OutView::End,
        start_tag("channelProperties"@, Seq::empty()),
    ] + properties_events(c.channels, n) + seq![OutView::End, OutView::End, OutView::End]
}

pub open spec fn property(name: Seq<char>, value: Seq<char>) -> Seq<OutView> {
    seq![start_tag("brushProperty"@, seq![("name"@, name), ("value"@, value)]), OutView::End]
}

pub open spec fn size_property(name: Seq<char>, value: Seq<char>) -> Seq<OutView> {
    seq![
        start_tag("brushProperty"@, seq![("name"@, name), ("value"@, value), ("units"@, "cm"@)]),
        OutView::End,
    ]
}

/// A brush: width and height (ten times the width in centimetres), color, then
/// transparency when it is set on a color other than black, and the pressure flag when set.
pub open spec fn brush_events(b: BrushView) -> Option<Seq<OutView>> {
    match spec_mul_pow10(b.stroke_width, 1) {
        None => None,
        Some(w) => Some(
            seq![start_tag("brush"@, seq![("xml:id"@, b.name)])] + size_property(
                "width"@,
                decimal_text(w),
            ) + size_property("height"@, decimal_text(w)) + property(
                "color"@,
                color_text(b.color),
            ) + (if b.transparency > 0 && b.color != (0u8, 0u8, 0u8) {
                property("transparency"@, int_text(b.transparency as int))
            } else {
                Seq::empty()
            }) + (if b.ignorepressure {
                property("ignorePressure"@, "1"@)
            } else {
                Seq::empty()
            }) + seq![OutView::End],
        ),
    }
}

pub open spec fn brushes_events(bs: Seq<BrushView>, n: int) -> Option<Seq<OutView>>
    decreases n,
{
    if n <= 0 {
        Some(Seq::empty())
    } else {
        match (brushes_events(bs, n - 1), brush_events(bs[n - 1])) {
            (Some(a), Some(b)) => Some(a + b),
            _ => None,
        }
    }
}

/// A trace of the emitted context, drawn with the brush `id`.
pub open spec fn trace_events(s: StrokeView, ctx: Seq<char>, id: Seq<char>) -> Option<Seq<OutView>> {
    match payload_text(s.0, s.1, s.2, s.0.len() as int) {
        None => None,
        Some(p) => Some(
            seq![
                start_tag("trace"@, seq![("contextRef"@, "#"@ + ctx), ("brushRef"@, "#"@ + id)]),
                OutView::Text(p),
                OutView::End,
            ],
        ),
    }
}

pub open spec fn traces_events(ss: Seq<StrokeView>, ctx: Seq<char>, mapping: Seq<usize>, n: int) -> Option<
    Seq<OutView>,
>
    decreases n,
{
    if n <= 0 {
        Some(Seq::empty())
    } else {
        match (
            traces_events(ss, ctx, mapping, n - 1),
            trace_events(ss[n - 1], ctx, brush_id(mapping[n - 1] as nat)),
        ) {
            (Some(a), Some(b)) => Some(a + b),
            _ => None,
        }
    }
}

/// The brush registry after the brushes of the first `n` strokes.
pub open spec fn collect_brushes(ss: Seq<StrokeView>, n: int) -> BrushCollectionView
    decreases n,
{
    if n <= 0 {
        BrushCollectionView { brushes: Seq::empty(), keys: Seq::empty(), mapping: Seq::empty() }
    } else {
        add_brush_spec(collect_brushes(ss, n - 1), ss[n - 1].3)
    }
}

/// The events of the document written for `ss` in context `ctx`.
pub open spec fn document_events(ss: Seq<StrokeView>, ctx: ContextView) -> Option<Seq<OutView>> {
    let col = collect_brushes(ss, ss.len() as int);
    match (
        brushes_events(col.brushes, col.brushes.len() as int),
        traces_events(ss, ctx.name, col.mapping, ss.len() as int),
    ) {
        (Some(b), Some(t)) => Some(
            seq![start_tag("ink"@, Seq::empty()), start_tag("definitions"@, Seq::empty())]
                + context_events(ctx) + b + seq![OutView::End] + t + seq![OutView::End],
        ),
        _ => None,
    }
}

pub open spec fn inkml_namespace() -> Seq<char> {
    "http://www.w3.org/2003/InkML"@
}

/// Whether a stroke can be written: three coordinates per sample, positive denominators,
/// and a well-formed brush.
pub open spec fn stroke_wf(s: StrokeView) -> bool {
    &&& s.1.len() == s.0.len()
    &&& s.2.len() == s.0.len()
    &&& forall|k: int| 0 <= k < s.0.len() ==> (#[trigger] s.0[k]).wf()
    &&& forall|k: int| 0 <= k < s.1.len() ==> (#[trigger] s.1[k]).wf()
    &&& forall|k: int| 0 <= k < s.2.len() ==> (#[trigger] s.2[k]).wf()
    &&& s.3.wf()
}

/// The context every emitted document declares.
pub open spec fn emitted_context() -> ContextView {
    ContextView {
        name: "ctx0"@,
        channels: seq![
            crate::context::position_channel(crate::vocab::ChannelKind::X),
            crate::context::position_channel(crate::vocab::ChannelKind::Y),
            crate::context::pressure_channel(),
        ],
    }
}

fn emit(out: &mut Vec<XmlOut>, e: XmlOut)
    ensures
        out_views(final(out)@) == out_views(old(out)@).push(e@),
{
    let ghost v = e@;
    out.push(e);
    assert(out_views(out@) =~= out_views(old(out)@).push(v));
}

fn attr(name: &str, value: String) -> (r: XmlAttribute)
    ensures
        r.name@ == name@,
        r.value@ == value@,
{
    XmlAttribute { name: name.to_owned(), value }
}

fn start(name: &str, attrs: Vec<XmlAttribute>) -> (r: XmlOut)
    ensures
        r@ == start_tag(name@, attr_views(attrs@)),
{
    XmlOut::Start(name.to_owned(), attrs)
}

fn el_chars(m: ChannelDataEl) -> (r: Vec<char>)
    requires
        m matches ChannelDataEl::Double(d) ==> d.wf(),
    ensures
        r@ == el_text(m),
{
    match m {
        ChannelDataEl::Integer(v) => int_chars(v as i128),
        ChannelDataEl::Double(d) => decimal_chars(d),
        ChannelDataEl::Bool => chars_of("1"),
    }
}

fn write_channel(out: &mut Vec<XmlOut>, c: &Channel)
    requires
        c.wf(),
    ensures
        out_views(final(out)@) == out_views(old(out)@) + channel_events(*c),
{
    let mut attrs: Vec<XmlAttribute> = Vec::new();
    attrs.push(attr("name", c.kind.name()));
    attrs.push(attr("type", c.types.name()));
    let ghost mid = attr_views(attrs@);
    match c.max_value {
        Some(m) => {
            attrs.push(attr("max", string_of(&el_chars(m))));
        },
        None => {},
    }
    attrs.push(attr("unit", c.unit_channel.name()));
    let ghost tags = attr_views(attrs@);
    assert(tags =~= seq![("name"@, c.kind.spec_name()), ("type"@, c.types.spec_name())] + (match c.max_value {
        Some(m) => seq![("max"@, el_text(m))],
        None => Seq::empty(),
    }) + seq![("unit"@, c.unit_channel.spec_name())]);
    emit(out, start("channel", attrs));
    emit(out, XmlOut::End);
    assert(out_views(out@) =~= out_views(old(out)@) + channel_events(*c));
}

fn write_property(out: &mut Vec<XmlOut>, c: &Channel)
    requires
        c.wf(),
    ensures
        out_views(final(out)@) == out_views(old(out)@) + property_events(*c),
{
    let mut attrs: Vec<XmlAttribute> = Vec::new();
    attrs.push(attr("channel", c.kind.name()));
    attrs.push(attr("name", "resolution".to_owned()));
    attrs.push(attr("value", string_of(&decimal_chars(c.resolution_value))));
    attrs.push(attr("units", c.unit_resolution.name()));
    assert(attr_views(attrs@) =~= seq![
        ("channel"@, c.kind.spec_name()),
        ("name"@, "resolution"@),
        ("value"@, decimal_text(c.resolution_value)),
        ("units"@, c.unit_resolution.spec_name()),
    ]);
    emit(out, start("channelProperty", attrs));
    emit(out, XmlOut::End);
    assert(out_views(out@) =~= out_views(old(out)@) + property_events(*c));
}

fn write_context(out: &mut Vec<XmlOut>, ctx: &Context)
    requires
        ctx.wf(),
    ensures
        out_views(final(out)@) == out_views(old(out)@) + context_events(ctx@),
{
    let ghost o0 = out_views(out@);
    let mut a1: Vec<XmlAttribute> = Vec::new();
    a1.push(attr("xml:id", ctx.name.clone()));
    assert(attr_views(a1@) =~= seq![("xml:id"@, ctx.name@)]);
    emit(out, start("context", a1));
    let mut a2: Vec<XmlAttribute> = Vec::new();
    a2.push(attr("xml:id", "inkSrc0".to_owned()));
    assert(attr_views(a2@) =~= seq![("xml:id"@, "inkSrc0"@)]);
    emit(out, start("inkSource", a2));
    let a3: Vec<XmlAttribute> = Vec::new();
    assert(attr_views(a3@) =~= Seq::empty());
    emit(out, start("traceFormat", a3));
    let ghost o1 = out_views(out@);
    let chs = &ctx.channel_list;
    let mut i: usize = 0;
    while i < chs.len()
        invariant
            i <= chs@.len(),
            ctx.wf(),
            chs == &ctx.channel_list,
            out_views(out@) == o1 + channels_events(chs@, i as int),
        decreases chs@.len() - i,
    {
        write_channel(out, &chs[i]);
        i = i + 1;
        assert(out_views(out@) =~= o1 + channels_events(chs@, i as int));
    }
    emit(out, XmlOut::End);
    let a4: Vec<XmlAttribute> = Vec::new();
    assert(attr_views(a4@) =~= Seq::empty());
    emit(out, start("channelProperties", a4));
    let ghost o2 = out_views(out@);
    let mut j: usize = 0;
    while j < chs.len()
        invariant
            j <= chs@.len(),
            ctx.wf(),
            chs == &ctx.channel_list,
            out_views(out@) == o2 + properties_events(chs@, j as int),
        decreases chs@.len() - j,
    {
        write_property(out, &chs[j]);
        j = j + 1;
        assert(out_views(out@) =~= o2 + properties_events(chs@, j as int));
    }
    emit(out, XmlOut::End);
    emit(out, XmlOut::End);
    emit(out, XmlOut::End);
    assert(out_views(out@) =~= o0 + context_events(ctx@));
}

fn write_size(out: &mut Vec<XmlOut>, name: &str, value: &Vec<char>)
    ensures
        out_views(final(out)@) == out_views(old(out)@) + size_property(name@, value@),
{
    let mut a: Vec<XmlAttribute> = Vec::new();
    a.push(attr("name", name.to_owned()));
    a.push(attr("value", string_of(value)));
    a.push(attr("units", "cm".to_owned()));
    assert(attr_views(a@) =~= seq![("name"@, name@), ("value"@, value@), ("units"@, "cm"@)]);
    emit(out, start("brushProperty", a));
    emit(out, XmlOut::End);
    assert(out_views(out@) =~= out_views(old(out)@) + size_property(name@, value@));
}

fn write_property_value(out: &mut Vec<XmlOut>, name: &str, value: &Vec<char>)
    ensures
        out_views(final(out)@) == out_views(old(out)@) + property(name@, value@),
{
    let mut a: Vec<XmlAttribute> = Vec::new();
    a.push(attr("name", name.to_owned()));
    a.push(attr("value", string_of(value)));
    assert(attr_views(a@) =~= seq![("name"@, name@), ("value"@, value@)]);
    emit(out, start("brushProperty", a));
    emit(out, XmlOut::End);
    assert(out_views(out@) =~= out_views(old(out)@) + property(name@, value@));
}

/// Writes one brush; `false`, with `out` left unspecified, when its width times ten
/// cannot be represented.
fn write_brush(out: &mut Vec<XmlOut>, b: &Brush) -> (r: bool)
    requires
        b@.wf(),
    ensures
        r == brush_events(b@) is Some,
        r ==> out_views(final(out)@) == out_views(old(out)@) + brush_events(b@)->Some_0,
{
    let w = match mul_pow10(b.stroke_width, 1) {
        Some(w) => w,
        None => {
            return false;
        },
    };
    let ghost o0 = out_views(out@);
    let mut a: Vec<XmlAttribute> = Vec::new();
    a.push(attr("xml:id", b.name.clone()));
    assert(attr_views(a@) =~= seq![("xml:id"@, b.name@)]);
    emit(out, start("brush", a));
    let wt = decimal_chars(w);
    write_size(out, "width", &wt);
    write_size(out, "height", &wt);
    write_property_value(out, "color", &color_chars(b.color));
    let ghost o1 = out_views(out@);
    if b.transparency > 0 && !(b.color.0 == 0 && b.color.1 == 0 && b.color.2 == 0) {
        write_property_value(out, "transparency", &int_chars(b.transparency as i128));
    }
    let ghost o2 = out_views(out@);
    assert(o2 == o1 + (if b.transparency > 0 && b.color != (0u8, 0u8, 0u8) {
        property("transparency"@, int_text(b.transparency as int))
    } else {
        Seq::empty()
    })) by {
        if !(b.transparency > 0 && b.color != (0u8, 0u8, 0u8)) {
            assert(o2 =~= o1 + Seq::<OutView>::empty());
        }
    }
    if b.ignorepressure {
        write_property_value(out, "ignorePressure", &chars_of("1"));
    }
    let ghost o3 = out_views(out@);
    assert(o3 == o2 + (if b.ignorepressure {
        property("ignorePressure"@, "1"@)
    } else {
        Seq::empty()
    })) by {
        if !b.ignorepressure {
            assert(o3 =~= o2 + Seq::<OutView>::empty());
        }
    }
    emit(out, XmlOut::End);
    assert(out_views(out@) =~= o0 + brush_events(b@)->Some_0);
    true
}

/// Writes one trace of stroke `st` in context `ctx` with brush `id`; `false` when a value
/// cannot be quantized.
fn write_trace(out: &mut Vec<XmlOut>, st: &FormattedStroke, ctx: &String, id: &String) -> (r: bool)
    requires
        st.y@.len() == st.x@.len(),
        st.f@.len() == st.x@.len(),
        forall|k: int| 0 <= k < st.x@.len() ==> (#[trigger] st.x@[k]).wf(),
        forall|k: int| 0 <= k < st.y@.len() ==> (#[trigger] st.y@[k]).wf(),
        forall|k: int| 0 <= k < st.f@.len() ==> (#[trigger] st.f@[k]).wf(),
    ensures
        ({
            let s: StrokeView = (st.x@, st.y@, st.f@, arbitrary());
            &&& r == trace_events(s, ctx@, id@) is Some
            &&& r ==> out_views(final(out)@) == out_views(old(out)@) + trace_events(
                s,
                ctx@,
                id@,
            )->Some_0
        }),
{
    let p = match payload_chars(st) {
        Some(p) => p,
        None => {
            return false;
        },
    };
    let ghost o0 = out_views(out@);
    let mut c = chars_of("#");
    let mut cc = chars_of(ctx.as_str());
    c.append(&mut cc);
    let mut b = chars_of("#");
    let mut bb = chars_of(id.as_str());
    b.append(&mut bb);
    let mut a: Vec<XmlAttribute> = Vec::new();
    a.push(attr("contextRef", string_of(&c)));
    a.push(attr("brushRef", string_of(&b)));
    assert(attr_views(a@) =~= seq![("contextRef"@, "#"@ + ctx@), ("brushRef"@, "#"@ + id@)]);
    emit(out, start("trace", a));
    emit(out, XmlOut::Text(string_of(&p)));
    emit(out, XmlOut::End);
    let ghost s: StrokeView = (st.x@, st.y@, st.f@, arbitrary());
    assert(out_views(out@) =~= o0 + trace_events(s, ctx@, id@)->Some_0);
    true
}

/// Writes the strokes as a document: the emitted context and each distinct brush once,
/// then one trace per stroke that refers to its brush's entry.
pub fn writer(stroke_data: Vec<(FormattedStroke, Brush)>) -> (r: Result<Vec<u8>, InkError>)
    requires
        stroke_data@.len() < usize::MAX,
        forall|i: int| 0 <= i < stroke_data@.len() ==> stroke_wf(#[trigger] stroke_view(stroke_data@[i])),
    ensures
        match document_events(stroke_views(stroke_data@), emitted_context()) {
            None => r == Err::<Vec<u8>, InkError>(InkError::Overflow),
            Some(evs) => match xml_render_of(evs, inkml_namespace()) {
                Ok(b) => r matches Ok(v) && v@ == b,
                Err(m) => r matches Err(InkError::XmlError(x)) && x@ == m,
            },
        },
{
    let ghost ss = stroke_views(stroke_data@);
    let n = stroke_data.len();
    let mut col = BrushCollection::new();
    assert(col@ == collect_brushes(ss, 0)) by {
        assert(col@.brushes =~= Seq::<BrushView>::empty());
        assert(col@.keys =~= Seq::<crate::brushes::BrushKey>::empty());
        assert(col@.mapping =~= Seq::<usize>::empty());
    }
    let mut i: usize = 0;
    while i < n
        invariant
            i <= n == stroke_data@.len() < usize::MAX,
            ss == stroke_views(stroke_data@),
            forall|j: int| 0 <= j < n ==> stroke_wf(#[trigger] stroke_view(stroke_data@[j])),
            col@ == collect_brushes(ss, i as int),
            col@.wf(),
            col@.mapping.len() == i,
        decreases n - i,
    {
        assert(stroke_wf(stroke_view(stroke_data@[i as int])));
        assert(ss[i as int] == stroke_view(stroke_data@[i as int]));
        col.add_brush(&stroke_data[i].1);
        i = i + 1;
    }
    let mut events: Vec<XmlOut> = Vec::new();
    let e1: Vec<XmlAttribute> = Vec::new();
    assert(attr_views(e1@) =~= Seq::empty());
    emit(&mut events, start("ink", e1));
    let e2: Vec<XmlAttribute> = Vec::new();
    assert(attr_views(e2@) =~= Seq::empty());
    emit(&mut events, start("definitions", e2));
    let context = Context::default_with_pressure();
    assert(context@ == emitted_context()) by {
        assert(context.channel_list@ =~= emitted_context().channels);
    }
    write_context(&mut events, &context);
    let ghost o1 = out_views(events@);
    let brushes = col.brushes();
    let ghost bs = col@.brushes;
    let mut k: usize = 0;
    while k < brushes.len()
        invariant
            k <= brushes@.len() == bs.len(),
            bs == col@.brushes,
            col@ == collect_brushes(ss, n as int),
            ss == stroke_views(stroke_data@),
            n == stroke_data@.len(),
            col@.wf(),
            forall|j: int| 0 <= j < bs.len() ==> #[trigger] brushes@[j]@ == bs[j],
            brushes_events(bs, k as int) is Some,
            out_views(events@) == o1 + brushes_events(bs, k as int)->Some_0,
        decreases brushes@.len() - k,
    {
        assert(brushes@[k as int]@ == bs[k as int]);
        let ok = write_brush(&mut events, &brushes[k]);
        if !ok {
            proof {
                lemma_brushes_none_stays(bs, k + 1, bs.len() as int);
            }
            return Err(InkError::Overflow);
        }
        k = k + 1;
        assert(out_views(events@) =~= o1 + brushes_events(bs, k as int)->Some_0);
    }
    assert(brushes@.map_values(|b: Brush| b@) == bs);
    emit(&mut events, XmlOut::End);
    let ghost o2 = out_views(events@);
    let ids = col.mapping();
    let ghost mp = col@.mapping;
    let mut t: usize = 0;
    assert(traces_events(ss, "ctx0"@, mp, 0) == Some(Seq::<OutView>::empty()));
    assert(o2 =~= o2 + Seq::<OutView>::empty());
    while t < n
        invariant
            t <= n == stroke_data@.len(),
            ss == stroke_views(stroke_data@),
            forall|j: int| 0 <= j < n ==> stroke_wf(#[trigger] stroke_view(stroke_data@[j])),
            ids@.len() == n,
            mp == col@.mapping,
            col@ == collect_brushes(ss, n as int),
            brushes_events(col@.brushes, col@.brushes.len() as int) is Some,
            mp.len() == n,
            forall|j: int| 0 <= j < ids@.len() ==> (#[trigger] ids@[j])@ == brush_id(mp[j] as nat),
            context.name@ == "ctx0"@,
            traces_events(ss, "ctx0"@, mp, t as int) is Some,
            out_views(events@) == o2 + traces_events(ss, "ctx0"@, mp, t as int)->Some_0,
        decreases n - t,
    {
        assert(stroke_wf(stroke_view(stroke_data@[t as int])));
        assert(ss[t as int] == stroke_view(stroke_data@[t as int]));
        let ok = write_trace(&mut events, &stroke_data[t].0, &context.name, &ids[t]);
        proof {
            let s: StrokeView = (stroke_data@[t as int].0.x@, stroke_data@[t as int].0.y@, stroke_data@[t as int].0.f@, arbitrary());
            assert(trace_events(s, "ctx0"@, ids@[t as int]@) == trace_events(ss[t as int], "ctx0"@, brush_id(mp[t as int] as nat)));
        }
        if !ok {
            proof {
                lemma_traces_none_stays(ss, "ctx0"@, mp, t + 1, n as int);
                assert(emitted_context().name == "ctx0"@);
            }
            return Err(InkError::Overflow);
        }
        t = t + 1;
        assert(out_views(events@) =~= o2 + traces_events(ss, "ctx0"@, mp, t as int)->Some_0);
    }
    emit(&mut events, XmlOut::End);
    assert(out_views(events@) =~= document_events(ss, emitted_context())->Some_0);
    match render_xml(&events, "http://www.w3.org/2003/InkML") {
        Ok(b) => Ok(b),
        Err(m) => Err(InkError::XmlError(m)),
    }
}

proof fn lemma_brushes_none_stays(bs: Seq<BrushView>, k: int, n: int)
    requires
        0 <= k <= n,
        brushes_events(bs, k) is None,
    ensures
        brushes_events(bs, n) is None,
    decreases n - k,
{
    if k < n {
        lemma_brushes_none_stays(bs, k, n - 1);
    }
}

proof fn lemma_traces_none_stays(ss: Seq<StrokeView>, ctx: Seq<char>, mp: Seq<usize>, k: int, n: int)
    requires
        0 <= k <= n,
        traces_events(ss, ctx, mp, k) is None,
    ensures
        traces_events(ss, ctx, mp, n) is None,
    decreases n - k,
{
    if k < n {
        lemma_traces_none_stays(ss, ctx, mp, k, n - 1);
    }
}

/// A coordinate written by the emitter, read back as an integer sample of the emitted
/// context's X (or Y) channel, is the written integer over 1000: within 1/2000 cm of the
/// coordinate that was written.
pub proof fn lemma_position_read_back(x: Rational, k: crate::vocab::ChannelKind)
    requires
        x.wf(),
        quantize(x, 1000) matches Some(q) && i64::MIN <= q <= i64::MAX,
    ensures
        ({
            let q = quantize(x, 1000)->Some_0;
            let scale = Rational { num: 1, den: 1000 };
            &&& crate::context::scaling_of(crate::context::position_channel(k)) == Ok::<
                Rational,
                InkError,
            >(scale)
            &&& crate::trace_data::scaled_sample(
                crate::trace_data::Column::Ints(seq![q as i64]),
                0,
                scale,
            ) == Some(Rational { num: q as i128, den: 1000 })
            &&& -(x.den as int) <= 2 * (q * x.den - 1000 * x.num) <= x.den
        }),
{
    let q = quantize(x, 1000)->Some_0;
    assert(pow10(0) == 1);
    lemma_round_div_error(x.num * 1000, x.den as int);
    assert(q == round_div(x.num * 1000, x.den as int));
    assert(q * x.den - 1000 * x.num == round_div(x.num * 1000, x.den as int) * x.den - x.num * 1000)
        by (nonlinear_arith)
        requires
            q == round_div(x.num * 1000, x.den as int),
    ;
}

/// The decoder state after reading `v` as the current column's explicit value.
pub open spec fn pushed_int(st: LexState, v: i64) -> LexState {
    let i = st.index as int;
    LexState {
        data: st.data.update(i, Column::Ints(st.data[i]->Ints_0.push(v))),
        mods: st.mods.update(i, ValueModifier::Explicit),
        index: st.index + 1,
        value: Seq::empty(),
        found: false,
        ..st
    }
}

/// Whether the decoder is between values of integer columns read with explicit values.
pub open spec fn plain_int_state(st: LexState) -> bool {
    &&& st.index < st.data.len()
    &&& st.data[st.index as int] is Ints
    &&& st.diffs.len() == st.data.len()
    &&& st.diffs[st.index as int] is Integer
    &&& st.new_mod == ValueModifier::Explicit
}

proof fn lemma_int_text_chars(v: int)
    ensures
        int_text(v).len() > 0,
        int_text(v)[0] == '-' || is_digit(int_text(v)[0]),
        forall|k: int| 1 <= k < int_text(v).len() ==> is_digit(#[trigger] int_text(v)[k]),
        is_digit(int_text(v).last()),
{
    if v < 0 {
        let m = (-v) as nat;
        lemma_nat_text_all_digits(m);
        let t = int_text(v);
        assert forall|k: int| 1 <= k < t.len() implies is_digit(#[trigger] t[k]) by {
            assert(t[k] == nat_text(m)[k - 1]);
        }
        assert(t.last() == nat_text(m).last());
    } else {
        lemma_nat_text_all_digits(v as nat);
    }
}

proof fn lemma_nat_text_all_digits(n: nat)
    ensures
        nat_text(n).len() > 0,
        forall|k: int| 0 <= k < nat_text(n).len() ==> is_digit(#[trigger] nat_text(n)[k]),
    decreases n,
{
    if n >= 10 {
        lemma_nat_text_all_digits(n / 10);
        let t = nat_text(n);
        let p = nat_text(n / 10);
        assert forall|k: int| 0 <= k < t.len() implies is_digit(#[trigger] t[k]) by {
            if k < p.len() {
                assert(t[k] == p[k]);
            }
        }
    }
}

proof fn lemma_lex_digits(st: LexState, s: Seq<char>, p: int, q: int, end: int)
    requires
        0 <= p <= q <= end <= s.len(),
        st.index < st.data.len(),
        st.found,
        forall|k: int| p <= k < q ==> is_digit(#[trigger] s[k]),
    ensures
        lex_columns(st, s, p, end) == lex_columns(
            LexState { value: st.value + s.subrange(p, q), ..st },
            s,
            q,
            end,
        ),
    decreases q - p,
{
    if p == q {
        assert(st.value + s.subrange(p, q) =~= st.value);
        assert(LexState { value: st.value + s.subrange(p, q), ..st } == st);
    } else {
        assert(is_digit(s[p]));
        let st1 = LexState { found: true, value: st.value.push(s[p]), ..st };
        assert(lex_char(st, s[p]) == Ok::<LexState, InkError>(st1));
        lemma_lex_digits(st1, s, p + 1, q, end);
        assert(st1.value + s.subrange(p + 1, q) =~= st.value + s.subrange(p, q));
    }
}

/// Reading the decimal text of `v` at `s[p..q]` commits `v` as the current column's value.
proof fn lemma_lex_int_token(st: LexState, s: Seq<char>, p: int, q: int, end: int, v: i64)
    requires
        0 <= p < q <= end <= s.len(),
        plain_int_state(st),
        !st.found,
        st.value.len() == 0,
        s.subrange(p, q) == int_text(v as int),
        q == end || s[q] == ' ',
        q == end ==> st.index + 1 == st.data.len(),
    ensures
        q < end ==> lex_columns(st, s, p, end) == lex_columns(pushed_int(st, v), s, q + 1, end),
        q == end ==> lex_columns(st, s, p, end) == Ok::<(LexState, int), InkError>(
            (pushed_int(st, v), end),
        ),
{
    let t = int_text(v as int);
    lemma_int_text_chars(v as int);
    assert(s[p] == t[0]);
    let st1 = LexState { found: true, value: seq![s[p]], ..st };
    assert(st.value.push(s[p]) =~= seq![s[p]]);
    assert(lex_char(st, s[p]) == Ok::<LexState, InkError>(st1));
    assert forall|k: int| p + 1 <= k < q implies is_digit(#[trigger] s[k]) by {
        assert(s[k] == t[k - p]);
    }
    lemma_lex_digits(st1, s, p + 1, q, end);
    let st2 = LexState { value: st1.value + s.subrange(p + 1, q), ..st1 };
    assert(st2.value =~= t);
    crate::number::lemma_int_text_reads_back(v);
    assert(!crate::trace_data::ends_in_bool(t));
    let i = st.index as int;
    let acc = st.diffs[i]->Integer_0;
    assert(crate::trace_data::int_step(st.data[i]->Ints_0, acc, v, ValueModifier::Explicit) == Ok::<(i64, i64), InkError>((v, acc)));
    assert(push_value(st2) == Ok::<LexState, InkError>(pushed_int(st, v))) by {
        let s3 = push_value(st2)->Ok_0;
        assert(st.diffs.update(i, ChannelDataEl::Integer(acc)) =~= st.diffs);
    }
    if q < end {
        assert(lex_char(st2, s[q]) == Ok::<LexState, InkError>(pushed_int(st, v)));
    }
}

/// Three integer columns between samples, every value read explicitly so far.
pub open spec fn three_int_columns(st: LexState) -> bool {
    &&& st.data.len() == 3
    &&& st.diffs.len() == 3
    &&& st.mods.len() == 3
    &&& forall|i: int| 0 <= i < 3 ==> (#[trigger] st.data[i]) is Ints
    &&& forall|i: int| 0 <= i < 3 ==> (#[trigger] st.diffs[i]) is Integer
    &&& forall|i: int| 0 <= i < 3 ==> #[trigger] st.mods[i] == ValueModifier::Explicit
    &&& st.value.len() == 0
    &&& !st.found
    &&& st.new_mod == ValueModifier::Explicit
}

/// The decoder reads the segment `int_text(a) int_text(b) int_text(c)` as one sample.
proof fn lemma_lex_sample(st: LexState, s: Seq<char>, o: int, e: int, a: i64, b: i64, c: i64)
    requires
        three_int_columns(st),
        0 <= o <= e <= s.len(),
        s.subrange(o, e) == int_text(a as int) + seq![' '] + int_text(b as int) + seq![' ']
            + int_text(c as int),
    ensures
        ({
            let st0 = LexState { index: 0, found: false, new_mod: st.mods[0], ..st };
            let r = pushed_int(pushed_int(pushed_int(st0, a), b), c);
            &&& crate::trace_data::lex_segment(st, s, o, e) == Ok::<LexState, InkError>(r)
            &&& three_int_columns(r)
            &&& r.index == 3
            &&& r.diffs == st.diffs
            &&& forall|i: int| 0 <= i < 3 ==> (#[trigger] r.data[i])->Ints_0 == st.data[i]->Ints_0.push(
                if i == 0 {
                    a
                } else if i == 1 {
                    b
                } else {
                    c
                },
            )
        }),
{
    let ta = int_text(a as int);
    let tb = int_text(b as int);
    let tc = int_text(c as int);
    lemma_int_text_chars(a as int);
    lemma_int_text_chars(b as int);
    lemma_int_text_chars(c as int);
    let seg = s.subrange(o, e);
    let p1 = o + ta.len();
    let p2 = p1 + 1 + tb.len();
    assert(seg.len() == e - o);
    assert((ta + seq![' '] + tb + seq![' '] + tc).len() == ta.len() + 1 + tb.len() + 1 + tc.len());
    assert(e == p2 + 1 + tc.len());
    assert(s.subrange(o, p1) =~= ta) by {
        assert forall|k: int| 0 <= k < ta.len() implies s.subrange(o, p1)[k] == ta[k] by {
            assert(s[o + k] == seg[k]);
        }
    }
    assert(s[p1] == seg[ta.len() as int]);
    assert(s.subrange(p1 + 1, p2) =~= tb) by {
        assert forall|k: int| 0 <= k < tb.len() implies s.subrange(p1 + 1, p2)[k] == tb[k] by {
            assert(s[p1 + 1 + k] == seg[(ta.len() + 1 + k) as int]);
        }
    }
    assert(s[p2] == seg[(ta.len() + 1 + tb.len()) as int]);
    assert(s.subrange(p2 + 1, e) =~= tc) by {
        assert forall|k: int| 0 <= k < tc.len() implies s.subrange(p2 + 1, e)[k] == tc[k] by {
            assert(s[p2 + 1 + k] == seg[(ta.len() + 1 + tb.len() + 1 + k) as int]);
        }
    }
    let st0 = LexState { index: 0, found: false, new_mod: st.mods[0], ..st };
    lemma_lex_int_token(st0, s, o, p1, e, a);
    let sa = pushed_int(st0, a);
    lemma_lex_int_token(sa, s, p1 + 1, p2, e, b);
    let sb = pushed_int(sa, b);
    lemma_lex_int_token(sb, s, p2 + 1, e, e, c);
    let r = pushed_int(sb, c);
    assert(crate::trace_data::all_space(s, e, e));
    assert(r.diffs == st.diffs);
    assert forall|i: int| 0 <= i < 3 implies #[trigger] r.mods[i] == ValueModifier::Explicit by {}
    assert forall|i: int| 0 <= i < 3 implies (#[trigger] r.data[i]) is Ints by {}
}

/// The integer the emitter writes for `v` at `m` units per unit.
pub open spec fn written(v: Rational, m: int) -> i64 {
    quantize(v, m)->Some_0 as i64
}

/// Whether every written integer of the first `n` samples fits an `i64`.
pub open spec fn samples_fit(x: Seq<Rational>, y: Seq<Rational>, f: Seq<Rational>, n: int) -> bool {
    forall|k: int|
        0 <= k < n ==> {
            &&& quantize(#[trigger] x[k], 1000) matches Some(a) && i64::MIN <= a <= i64::MAX
            &&& quantize(y[k], 1000) matches Some(b) && i64::MIN <= b <= i64::MAX
            &&& quantize(f[k], 32767) matches Some(c) && i64::MIN <= c <= i64::MAX
        }
}

/// The decoder's state after the first `k` written samples of three integer columns.
pub open spec fn decoded(x: Seq<Rational>, y: Seq<Rational>, f: Seq<Rational>, k: int) -> LexState {
    LexState {
        data: seq![
            Column::Ints(Seq::new(k as nat, |j: int| written(x[j], 1000))),
            Column::Ints(Seq::new(k as nat, |j: int| written(y[j], 1000))),
            Column::Ints(Seq::new(k as nat, |j: int| written(f[j], 32767))),
        ],
        mods: seq![ValueModifier::Explicit, ValueModifier::Explicit, ValueModifier::Explicit],
        diffs: seq![ChannelDataEl::Integer(0), ChannelDataEl::Integer(0), ChannelDataEl::Integer(0)],
        index: if k == 0 {
            0
        } else {
            3
        },
        value: Seq::empty(),
        found: false,
        new_mod: ValueModifier::Explicit,
    }
}

proof fn lemma_payload_prefix(x: Seq<Rational>, y: Seq<Rational>, f: Seq<Rational>, k: int, n: int)
    requires
        0 <= k <= n,
        payload_text(x, y, f, n) is Some,
    ensures
        payload_text(x, y, f, k) is Some,
        payload_text(x, y, f, n)->Some_0.subrange(0, payload_text(x, y, f, k)->Some_0.len() as int)
            == payload_text(x, y, f, k)->Some_0,
        1 <= k < n ==> payload_text(x, y, f, k)->Some_0.len() < payload_text(x, y, f, n)->Some_0.len()
            && payload_text(x, y, f, n)->Some_0[payload_text(x, y, f, k)->Some_0.len() as int] == ',',
    decreases n - k,
{
    let pn = payload_text(x, y, f, n)->Some_0;
    if k == n {
        assert(pn.subrange(0, pn.len() as int) =~= pn);
    } else {
        lemma_payload_prefix(x, y, f, k, n - 1);
        let pm = payload_text(x, y, f, n - 1)->Some_0;
        let pk = payload_text(x, y, f, k)->Some_0;
        let t = sample_text(x[n - 1], y[n - 1], f[n - 1])->Some_0;
        if n == 1 {
            assert(pk =~= Seq::<char>::empty());
            assert(pn.subrange(0, 0) =~= pk);
        } else {
            assert(pn == pm + seq![','] + t);
            assert(pm.subrange(0, pk.len() as int) == pk);
            assert(pn.subrange(0, pk.len() as int) =~= pk) by {
                assert forall|j: int| 0 <= j < pk.len() implies pn.subrange(0, pk.len() as int)[j] == pk[j] by {
                    assert(pn[j] == pm[j]);
                    assert(pm.subrange(0, pk.len() as int)[j] == pm[j]);
                }
            }
            if 1 <= k {
                if k == n - 1 {
                    assert(pn[pm.len() as int] == ',');
                } else {
                    assert(pn[pk.len() as int] == pm[pk.len() as int]);
                }
            }
        }
    }
}

proof fn lemma_sample_chars(a: i64, b: i64, c: i64)
    ensures
        ({
            let t = int_text(a as int) + seq![' '] + int_text(b as int) + seq![' '] + int_text(c as int);
            &&& t.len() > 0
            &&& !crate::text::is_space(t[0])
            &&& forall|j: int| 0 <= j < t.len() ==> #[trigger] t[j] != ','
        }),
{
    lemma_int_text_chars(a as int);
    lemma_int_text_chars(b as int);
    lemma_int_text_chars(c as int);
    let ta = int_text(a as int);
    let tb = int_text(b as int);
    let tc = int_text(c as int);
    let t = ta + seq![' '] + tb + seq![' '] + tc;
    assert(t[0] == ta[0]);
    assert forall|j: int| 0 <= j < t.len() implies #[trigger] t[j] != ',' by {
        if j < ta.len() {
            assert(t[j] == ta[j]);
            if j > 0 {
                assert(is_digit(ta[j]));
            }
        } else if j == ta.len() {
        } else if j < ta.len() + 1 + tb.len() {
            assert(t[j] == tb[j - ta.len() - 1]);
            if j > ta.len() + 1 {
                assert(is_digit(tb[j - ta.len() - 1]));
            }
        } else if j == ta.len() + 1 + tb.len() {
        } else {
            assert(t[j] == tc[j - ta.len() - 2 - tb.len()]);
            if j > ta.len() + 2 + tb.len() {
                assert(is_digit(tc[j - ta.len() - 2 - tb.len()]));
            }
        }
    }
}

proof fn lemma_next_comma_at(s: Seq<char>, i: int, e: int)
    requires
        0 <= i <= e <= s.len(),
        forall|j: int| i <= j < e ==> #[trigger] s[j] != ',',
        e == s.len() || s[e] == ',',
    ensures
        crate::trace_data::next_comma(s, i) == e,
    decreases e - i,
{
    if i < e {
        lemma_next_comma_at(s, i + 1, e);
    }
}

proof fn lemma_decode_from(x: Seq<Rational>, y: Seq<Rational>, f: Seq<Rational>, k: int, n: int)
    requires
        0 <= k < n,
        n <= x.len(),
        n <= y.len(),
        n <= f.len(),
        payload_text(x, y, f, n) is Some,
        samples_fit(x, y, f, n),
    ensures
        crate::trace_data::lex_payload(
            decoded(x, y, f, k),
            payload_text(x, y, f, n)->Some_0,
            if k == 0 {
                0
            } else {
                payload_text(x, y, f, k)->Some_0.len() + 1int
            },
        ) == Ok::<LexState, InkError>(decoded(x, y, f, n)),
    decreases n - k,
{
    let t = payload_text(x, y, f, n)->Some_0;
    lemma_payload_prefix(x, y, f, k + 1, n);
    lemma_payload_prefix(x, y, f, k, n);
    let pk = payload_text(x, y, f, k)->Some_0;
    let pk1 = payload_text(x, y, f, k + 1)->Some_0;
    let o: int = if k == 0 {
        0
    } else {
        pk.len() + 1int
    };
    let e = pk1.len() as int;
    assert(samples_fit(x, y, f, n) ==> quantize(x[k], 1000) is Some);
    let a = written(x[k], 1000);
    let b = written(y[k], 1000);
    let c = written(f[k], 32767);
    let smp = sample_text(x[k], y[k], f[k])->Some_0;
    assert(smp == int_text(a as int) + seq![' '] + int_text(b as int) + seq![' '] + int_text(c as int));
    assert(t.subrange(o, e) =~= smp) by {
        if k == 0 {
            assert(pk1 == smp);
            assert(pk =~= Seq::<char>::empty());
        } else {
            assert(pk1 == pk + seq![','] + smp);
        }
        assert(t.subrange(0, e) == pk1);
        assert forall|j: int| 0 <= j < smp.len() implies t.subrange(o, e)[j] == smp[j] by {
            assert(t[o + j] == t.subrange(0, e)[o + j]);
        }
    }
    lemma_sample_chars(a, b, c);
    assert forall|j: int| o <= j < e implies #[trigger] t[j] != ',' by {
        assert(t[j] == smp[j - o]);
    }
    if k + 1 < n {
        assert(t[e] == ',');
    } else {
        assert(t =~= pk1);
    }
    lemma_next_comma_at(t, o, e);
    let st = decoded(x, y, f, k);
    assert(three_int_columns(st));
    lemma_lex_sample(st, t, o, e, a, b, c);
    let r = crate::trace_data::lex_segment(st, t, o, e)->Ok_0;
    let nxt = decoded(x, y, f, k + 1);
    assert(r.data =~= nxt.data) by {
        assert(r.data[0]->Ints_0 =~= nxt.data[0]->Ints_0);
        assert(r.data[1]->Ints_0 =~= nxt.data[1]->Ints_0);
        assert(r.data[2]->Ints_0 =~= nxt.data[2]->Ints_0);
    }
    assert(r.mods =~= nxt.mods);
    assert(r == nxt);
    assert(!crate::text::is_space(t[o]));
    assert(!crate::trace_data::all_space(t, o, e));
    if k + 1 < n {
        lemma_decode_from(x, y, f, k + 1, n);
    }
}

/// The payload the emitter writes for a stroke decodes, through the emitted context's three
/// integer columns, to exactly the integers it wrote: x and y in thousandths of a
/// centimetre, f in 32767ths.
pub proof fn lemma_payload_reads_back(x: Seq<Rational>, y: Seq<Rational>, f: Seq<Rational>, n: int)
    requires
        0 <= n <= x.len(),
        n <= y.len(),
        n <= f.len(),
        payload_text(x, y, f, n) is Some,
        samples_fit(x, y, f, n),
    ensures
        crate::trace_data::lex_payload(
            crate::trace_data::initial_state(
                seq![
                    crate::vocab::ChannelType::Integer,
                    crate::vocab::ChannelType::Integer,
                    crate::vocab::ChannelType::Integer,
                ],
            ),
            payload_text(x, y, f, n)->Some_0,
            0,
        ) == Ok::<LexState, InkError>(decoded(x, y, f, n)),
{
    let ts = seq![
        crate::vocab::ChannelType::Integer,
        crate::vocab::ChannelType::Integer,
        crate::vocab::ChannelType::Integer,
    ];
    let init = crate::trace_data::initial_state(ts);
    let d0 = decoded(x, y, f, 0);
    assert(init.data =~= d0.data) by {
        assert(init.data[0]->Ints_0 =~= d0.data[0]->Ints_0);
        assert(init.data[1]->Ints_0 =~= d0.data[1]->Ints_0);
        assert(init.data[2]->Ints_0 =~= d0.data[2]->Ints_0);
    }
    assert(init.mods =~= d0.mods);
    assert(init.diffs =~= d0.diffs);
    assert(init == d0);
    if n == 0 {
        let t = payload_text(x, y, f, 0)->Some_0;
        assert(t =~= Seq::<char>::empty());
        assert(crate::trace_data::next_comma(t, 0) == 0);
        assert(crate::trace_data::all_space(t, 0, 0));
    } else {
        lemma_decode_from(x, y, f, 0, n);
    }
}

} // verus!
