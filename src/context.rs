//! Channels and the recording contexts that order them.
use vstd::prelude::*;

use crate::error::InkError;
use crate::number::{
    int_of, make_ratio, number_of, parse_int, parse_number, pow10, pow10_exec, ratio, Decimal,
    Rational,
};
use crate::text::{chars_of, opt_view};
use crate::trace_data::ChannelDataEl;
use crate::vocab::{
    kind_named, lookup, type_named, unit_named, ChannelKind, ChannelType, ChannelUnit,
    ResolutionUnits,
};
use crate::error::VocabularyKind;

verus! {

/// One column of per-sample data.
#[derive(Clone, Copy, Debug)]
pub struct Channel {
    pub kind: ChannelKind,
    pub types: ChannelType,
    /// Raw units per physical unit.
    pub resolution_value: Decimal,
    pub max_value: Option<ChannelDataEl>,
    pub unit_resolution: ResolutionUnits,
    pub unit_channel: ChannelUnit,
}

/// The declared maximum `s` read as a value of type `t`; `None` when it does not read.
pub open spec fn max_value_of(t: ChannelType, s: Option<Seq<char>>) -> Option<ChannelDataEl> {
    match s {
        None => None,
        Some(v) => match t {
            ChannelType::Integer => match int_of(v) {
                Some(i) => Some(ChannelDataEl::Integer(i)),
                None => None,
            },
            ChannelType::Double | ChannelType::Decimal => match number_of(v) {
                Some(d) => Some(ChannelDataEl::Double(d)),
                None => None,
            },
            ChannelType::Bool => None,
        },
    }
}

/// The channel that the attributes `[name, type, units, max]` describe.
pub open spec fn channel_from(attrs: Seq<Option<Seq<char>>>) -> Result<Channel, InkError> {
    match lookup(attrs[0], |s| kind_named(s), VocabularyKind::Kind) {
        Err(e) => Err(e),
        Ok(kind) => match lookup(attrs[1], |s| type_named(s), VocabularyKind::Type) {
            Err(e) => Err(e),
            Ok(t) => Ok(
                Channel {
                    kind,
                    types: t,
                    resolution_value: Decimal { mantissa: 1000, scale: 0 },
                    max_value: max_value_of(t, attrs[3]),
                    unit_resolution: kind.spec_default_resolution_unit(),
                    unit_channel: match attrs[2] {
                        Some(u) => match unit_named(u) {
                            Some(unit) => unit,
                            None => kind.spec_default_unit(),
                        },
                        None => kind.spec_default_unit(),
                    },
                },
            ),
        },
    }
}

/// The denominator of the base ratio of a resolution unit: 1/mm counts tenths of a
/// centimetre, 1/himetric thousandths.
pub open spec fn base_divisor(u: ResolutionUnits) -> int {
    match u {
        ResolutionUnits::OneOverMm => 10,
        ResolutionUnits::OneOverHimetric => 1000,
        _ => 1,
    }
}

/// The multiplier that takes raw samples of a channel to physical units.
pub open spec fn scaling_of(c: Channel) -> Result<Rational, InkError> {
    let r = if c.kind == ChannelKind::F && c.max_value is Some {
        match c.max_value->Some_0 {
            ChannelDataEl::Integer(m) => if m == 0 {
                None
            } else {
                make_ratio(1, m as int)
            },
            ChannelDataEl::Double(d) => if d.mantissa == 0 {
                None
            } else {
                make_ratio(pow10(d.scale as nat), d.mantissa as int)
            },
            ChannelDataEl::Bool => make_ratio(1, 1),
        }
    } else {
        let d = c.resolution_value;
        if d.mantissa == 0 {
            None
        } else {
            make_ratio(pow10(d.scale as nat), base_divisor(c.unit_resolution) * d.mantissa)
        }
    };
    match r {
        Some(q) => Ok(q),
        None => Err(InkError::DegenerateScaling),
    }
}

impl ChannelType {
    /// Reads a declared maximum as a value of this type; `None` when absent or unreadable.
    pub fn get_max_value(&self, max_val: &Option<String>) -> (r: Option<ChannelDataEl>)
        ensures
            r == max_value_of(*self, opt_view(*max_val)),
            r matches Some(ChannelDataEl::Double(d)) ==> d.wf(),
    {
        match max_val {
            None => None,
            Some(text) => {
                let cs = chars_of(text.as_str());
                match self {
                    ChannelType::Integer => match parse_int(&cs) {
                        Some(i) => Some(ChannelDataEl::Integer(i)),
                        None => None,
                    },
                    ChannelType::Double | ChannelType::Decimal => match parse_number(&cs) {
                        Some(d) => Some(ChannelDataEl::Double(d)),
                        None => None,
                    },
                    ChannelType::Bool => None,
                }
            },
        }
    }
}

impl Channel {
    pub open spec fn wf(self) -> bool {
        &&& self.resolution_value.wf()
        &&& match self.max_value {
            Some(ChannelDataEl::Double(d)) => d.wf(),
            _ => true,
        }
    }

    /// Builds a channel from the attributes `[name, type, units, max]` of a `<channel>`:
    /// name and type are required, the resolution starts at 1000 per default unit.
    pub fn initialise_channel_from_name(kind_type_unit_v: Vec<Option<String>>) -> (r: Result<
        Channel,
        InkError,
    >)
        requires
            kind_type_unit_v@.len() >= 4,
        ensures
            r == channel_from(kind_type_unit_v@.map_values(|o: Option<String>| opt_view(o))),
            r matches Ok(c) ==> c.wf(),
    {
        let channel_kind = match ChannelKind::parse(&kind_type_unit_v[0]) {
            Ok(k) => k,
            Err(e) => {
                return Err(e);
            },
        };
        let types = match ChannelType::parse(&kind_type_unit_v[1]) {
            Ok(t) => t,
            Err(e) => {
                return Err(e);
            },
        };
        let unit_channel = match ChannelUnit::parse(&kind_type_unit_v[2]) {
            Some(u) => u,
            None => channel_kind.get_default_unit(),
        };
        Ok(
            Channel {
                kind: channel_kind,
                types,
                resolution_value: Decimal { mantissa: 1000, scale: 0 },
                max_value: types.get_max_value(&kind_type_unit_v[3]),
                unit_resolution: channel_kind.get_default_resolution_unit(),
                unit_channel,
            },
        )
    }

    /// The multiplier that takes raw samples to physical units: `1 / max` for a force
    /// channel with a declared maximum, else the unit's base ratio over the resolution.
    pub fn get_scaling(&self) -> (r: Result<Rational, InkError>)
        requires
            self.wf(),
        ensures
            r == scaling_of(*self),
    {
        let q = if self.kind == ChannelKind::F && self.max_value.is_some() {
            match self.max_value {
                Some(ChannelDataEl::Integer(m)) => {
                    if m == 0 {
                        None
                    } else {
                        ratio(1, m as i128)
                    }
                },
                Some(ChannelDataEl::Double(d)) => {
                    if d.mantissa == 0 {
                        None
                    } else {
                        ratio(pow10_exec(d.scale), d.mantissa as i128)
                    }
                },
                _ => ratio(1, 1),
            }
        } else {
            let d = self.resolution_value;
            if d.mantissa == 0 {
                None
            } else {
                let b: i128 = match self.unit_resolution {
                    ResolutionUnits::OneOverMm => 10,
                    ResolutionUnits::OneOverHimetric => 1000,
                    _ => 1,
                };
                ratio(pow10_exec(d.scale), b * d.mantissa as i128)
            }
        };
        match q {
            Some(v) => Ok(v),
            None => Err(InkError::DegenerateScaling),
        }
    }
}

/// A named recording context: its channels in the order of the payload's columns.
#[derive(Debug)]
pub struct Context {
    pub name: String,
    pub channel_list: Vec<Channel>,
}

/// The position of the first channel of kind `k` at or after `i`, or -1.
pub open spec fn channel_pos(chs: Seq<Channel>, k: ChannelKind, i: int) -> int
    decreases chs.len() - i,
{
    if i < 0 || i >= chs.len() {
        -1
    } else if chs[i].kind == k {
        i
    } else {
        channel_pos(chs, k, i + 1)
    }
}

/// The position of the last channel of kind `k` at or before `i`, or -1.
pub open spec fn channel_pos_back(chs: Seq<Channel>, k: ChannelKind, i: int) -> int
    decreases i + 1,
{
    if i < 0 || i >= chs.len() {
        -1
    } else if chs[i].kind == k {
        i
    } else {
        channel_pos_back(chs, k, i - 1)
    }
}

/// The index of the first channel of kind `k`, if any.
pub open spec fn first_channel(chs: Seq<Channel>, k: ChannelKind) -> Option<int> {
    let p = channel_pos(chs, k, 0);
    if p < 0 {
        None
    } else {
        Some(p)
    }
}

/// The index of the last channel of kind `k`, if any.
pub open spec fn last_channel(chs: Seq<Channel>, k: ChannelKind) -> Option<int> {
    let p = channel_pos_back(chs, k, chs.len() - 1);
    if p < 0 {
        None
    } else {
        Some(p)
    }
}

proof fn lemma_channel_pos_range(chs: Seq<Channel>, k: ChannelKind, i: int)
    ensures
        channel_pos(chs, k, i) == -1 || (i <= channel_pos(chs, k, i) < chs.len()),
    decreases chs.len() - i,
{
    if 0 <= i < chs.len() && chs[i].kind != k {
        lemma_channel_pos_range(chs, k, i + 1);
    }
}

pub proof fn lemma_channel_pos_back_range(chs: Seq<Channel>, k: ChannelKind, i: int)
    ensures
        channel_pos_back(chs, k, i) == -1 || (0 <= channel_pos_back(chs, k, i) <= i
            && channel_pos_back(chs, k, i) < chs.len()),
    decreases i + 1,
{
    if 0 <= i < chs.len() && chs[i].kind != k {
        lemma_channel_pos_back_range(chs, k, i - 1);
    }
}

/// A position channel: integer samples, 1000 per centimetre.
pub open spec fn position_channel(k: ChannelKind) -> Channel {
    Channel {
        kind: k,
        types: ChannelType::Integer,
        resolution_value: Decimal { mantissa: 1000, scale: 0 },
        max_value: None,
        unit_resolution: ResolutionUnits::OneOverCm,
        unit_channel: ChannelUnit::cm,
    }
}

/// The force channel of the emitted context: integers up to 32767.
pub open spec fn pressure_channel() -> Channel {
    Channel {
        kind: ChannelKind::F,
        types: ChannelType::Integer,
        resolution_value: Decimal { mantissa: 0, scale: 0 },
        max_value: Some(ChannelDataEl::Integer(32767)),
        unit_resolution: ResolutionUnits::OneOverDev,
        unit_channel: ChannelUnit::dev,
    }
}

fn position(k: ChannelKind) -> (r: Channel)
    ensures
        r == position_channel(k),
{
    Channel {
        kind: k,
        types: ChannelType::Integer,
        resolution_value: Decimal { mantissa: 1000, scale: 0 },
        max_value: None,
        unit_resolution: ResolutionUnits::OneOverCm,
        unit_channel: ChannelUnit::cm,
    }
}

/// The content of a `Context`.
pub struct ContextView {
    pub name: Seq<char>,
    pub channels: Seq<Channel>,
}

impl ContextView {
    pub open spec fn wf(self) -> bool {
        forall|i: int| 0 <= i < self.channels.len() ==> (#[trigger] self.channels[i]).wf()
    }
}

impl View for Context {
    type V = ContextView;

    open spec fn view(&self) -> ContextView {
        ContextView { name: self.name@, channels: self.channel_list@ }
    }
}

impl Context {
    pub open spec fn wf(self) -> bool {
        forall|i: int| 0 <= i < self.channel_list@.len() ==> (#[trigger] self.channel_list@[i]).wf()
    }

    /// The context `ctx0` with integer X and Y at 1000 per centimetre.
    pub fn default() -> (r: Context)
        ensures
            r.name@ == "ctx0"@,
            r.channel_list@ == seq![
                position_channel(ChannelKind::X),
                position_channel(ChannelKind::Y),
            ],
            r.wf(),
    {
        let mut chs: Vec<Channel> = Vec::new();
        chs.push(position(ChannelKind::X));
        chs.push(position(ChannelKind::Y));
        let r = Context { name: "ctx0".to_owned(), channel_list: chs };
        assert(r.channel_list@ =~= seq![
            position_channel(ChannelKind::X),
            position_channel(ChannelKind::Y),
        ]);
        r
    }

    /// The context the emitter writes: `ctx0` with X, Y and a force channel of maximum 32767.
    pub fn default_with_pressure() -> (r: Context)
        ensures
            r.name@ == "ctx0"@,
            r.channel_list@ == seq![
                position_channel(ChannelKind::X),
                position_channel(ChannelKind::Y),
                pressure_channel(),
            ],
            r.wf(),
    {
        let mut chs: Vec<Channel> = Vec::new();
        chs.push(position(ChannelKind::X));
        chs.push(position(ChannelKind::Y));
        chs.push(
            Channel {
                kind: ChannelKind::F,
                types: ChannelType::Integer,
                resolution_value: Decimal { mantissa: 0, scale: 0 },
                max_value: Some(ChannelDataEl::Integer(32767)),
                unit_resolution: ResolutionUnits::OneOverDev,
                unit_channel: ChannelUnit::dev,
            },
        );
        let r = Context { name: "ctx0".to_owned(), channel_list: chs };
        assert(r.channel_list@ =~= seq![
            position_channel(ChannelKind::X),
            position_channel(ChannelKind::Y),
            pressure_channel(),
        ]);
        r
    }

    /// A context named `name` with no channel yet.
    pub fn create_empty(name: String) -> (r: Context)
        ensures
            r.name == name,
            r.channel_list@.len() == 0,
            r.wf(),
    {
        Context { name, channel_list: Vec::new() }
    }

    /// The index of the first channel of kind `channel_kind`, if there is one.
    pub fn channel_exists(&self, channel_kind: ChannelKind) -> (r: Option<usize>)
        ensures
            r matches Some(i) ==> first_channel(self.channel_list@, channel_kind) == Some(i as int)
                && i < self.channel_list@.len(),
            r is None ==> first_channel(self.channel_list@, channel_kind) is None,
    {
        let ghost chs = self.channel_list@;
        let mut i: usize = 0;
        while i < self.channel_list.len()
            invariant
                i <= chs.len(),
                chs == self.channel_list@,
                channel_pos(chs, channel_kind, i as int) == channel_pos(chs, channel_kind, 0),
            decreases chs.len() - i,
        {
            if self.channel_list[i].kind == channel_kind {
                return Some(i);
            }
            i = i + 1;
        }
        None
    }

    /// The index of the last channel of kind `channel_kind`, if there is one.
    pub fn last_channel_index(&self, channel_kind: ChannelKind) -> (r: Option<usize>)
        ensures
            r matches Some(i) ==> last_channel(self.channel_list@, channel_kind) == Some(i as int)
                && i < self.channel_list@.len(),
            r is None ==> last_channel(self.channel_list@, channel_kind) is None,
    {
        let ghost chs = self.channel_list@;
        let n = self.channel_list.len();
        let mut i: usize = n;
        while i > 0
            invariant
                i <= n == chs.len(),
                chs == self.channel_list@,
                channel_pos_back(chs, channel_kind, i - 1) == channel_pos_back(
                    chs,
                    channel_kind,
                    n - 1,
                ),
            decreases i,
        {
            if self.channel_list[i - 1].kind == channel_kind {
                return Some(i - 1);
            }
            i = i - 1;
        }
        None
    }
}

} // verus!
