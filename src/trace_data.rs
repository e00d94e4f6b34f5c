//! Typed per-channel samples, and the decoder of the compact trace payload.
use vstd::prelude::*;

use crate::error::InkError;
use crate::number::{
    checked_add, decimal_of, int_of, parse_decimal, parse_int, pow10, pow10_exec, spec_add, Decimal,
    Rational,
};
use crate::text::{chars_of, is_digit, is_space};
use crate::vocab::ChannelType;

verus! {

/// The samples of one channel, in the storage its type calls for.
#[derive(Clone, Debug)]
pub enum ChannelData {
    Integer(Vec<i64>),
    Bool(Vec<bool>),
    Double(Vec<Decimal>),
}

/// One value of a channel: the running difference accumulator of a column.
#[derive(Clone, Copy, Debug, PartialEq, Eq, Structural)]
pub enum ChannelDataEl {
    Integer(i64),
    Double(Decimal),
    Bool,
}

/// The mathematical content of a `ChannelData`.
pub enum Column {
    Ints(Seq<i64>),
    Decs(Seq<Decimal>),
    Bools(Seq<bool>),
}

impl View for ChannelData {
    type V = Column;

    open spec fn view(&self) -> Column {
        match self {
            ChannelData::Integer(v) => Column::Ints(v@),
            ChannelData::Double(v) => Column::Decs(v@),
            ChannelData::Bool(v) => Column::Bools(v@),
        }
    }
}

/// The content of each column of a record.
pub open spec fn column_views(v: Seq<ChannelData>) -> Seq<Column> {
    v.map_values(|c: ChannelData| c@)
}

impl Column {
    pub open spec fn len(self) -> nat {
        match self {
            Column::Ints(s) => s.len(),
            Column::Decs(s) => s.len(),
            Column::Bools(s) => s.len(),
        }
    }

    /// Whether this storage is the one a channel of type `t` uses.
    pub open spec fn has_type(self, t: ChannelType) -> bool {
        match self {
            Column::Ints(_) => t == ChannelType::Integer,
            Column::Decs(_) => t == ChannelType::Decimal || t == ChannelType::Double,
            Column::Bools(_) => t == ChannelType::Bool,
        }
    }

    pub open spec fn wf(self) -> bool {
        match self {
            Column::Decs(s) => forall|k: int| 0 <= k < s.len() ==> (#[trigger] s[k]).wf(),
            _ => true,
        }
    }
}

/// The empty storage for a channel of type `t`.
pub open spec fn empty_column(t: ChannelType) -> Column {
    match t {
        ChannelType::Integer => Column::Ints(Seq::empty()),
        ChannelType::Decimal | ChannelType::Double => Column::Decs(Seq::empty()),
        ChannelType::Bool => Column::Bools(Seq::empty()),
    }
}

/// The zero of a channel of type `t`.
pub open spec fn null_value(t: ChannelType) -> ChannelDataEl {
    match t {
        ChannelType::Integer => ChannelDataEl::Integer(0),
        ChannelType::Decimal | ChannelType::Double => ChannelDataEl::Double(
            Decimal { mantissa: 0, scale: 0 },
        ),
        ChannelType::Bool => ChannelDataEl::Bool,
    }
}

impl ChannelType {
    /// The zero of this type: the starting value of a difference accumulator.
    pub fn get_null_value(&self) -> (r: ChannelDataEl)
        ensures
            r == null_value(*self),
    {
        match self {
            ChannelType::Integer => ChannelDataEl::Integer(0),
            ChannelType::Decimal => ChannelDataEl::Double(Decimal { mantissa: 0, scale: 0 }),
            ChannelType::Bool => ChannelDataEl::Bool,
            ChannelType::Double => ChannelDataEl::Double(Decimal { mantissa: 0, scale: 0 }),
        }
    }
}

impl ChannelData {
    /// The empty storage for a channel of type `t`.
    pub fn map_from_channel_type(t: ChannelType) -> (r: ChannelData)
        ensures
            r@ == empty_column(t),
    {
        match t {
            ChannelType::Integer => ChannelData::Integer(Vec::new()),
            ChannelType::Decimal => ChannelData::Double(Vec::new()),
            ChannelType::Bool => ChannelData::Bool(Vec::new()),
            ChannelType::Double => ChannelData::Double(Vec::new()),
        }
    }
}

/// How a column value combines with the column's earlier samples.
#[derive(Clone, Copy, Debug, PartialEq, Eq, Structural)]
pub enum ValueModifier {
    /// `!`: the value is the sample.
    Explicit,
    /// `'`: the value is added to the previous sample.
    SingleDifference,
    /// `"`: the value and the running accumulator are added to the previous sample.
    DoubleDifference,
}

/// The state of the payload decoder between two characters.
pub struct LexState {
    pub data: Seq<Column>,
    pub mods: Seq<ValueModifier>,
    pub diffs: Seq<ChannelDataEl>,
    pub index: nat,
    pub value: Seq<char>,
    pub found: bool,
    pub new_mod: ValueModifier,
}

/// Whether `d` is the accumulator kind that goes with the storage `c`.
pub open spec fn diff_matches(c: Column, d: ChannelDataEl) -> bool {
    match c {
        Column::Ints(_) => d is Integer,
        Column::Decs(_) => d matches ChannelDataEl::Double(x) && x.wf(),
        Column::Bools(_) => d is Bool,
    }
}

impl LexState {
    pub open spec fn wf(self) -> bool {
        &&& self.mods.len() == self.data.len()
        &&& self.diffs.len() == self.data.len()
        &&& self.index <= self.data.len()
        &&& forall|i: int|
            0 <= i < self.data.len() ==> (#[trigger] self.data[i]).wf() && diff_matches(
                self.data[i],
                self.diffs[i],
            )
    }

    /// Whether the columns have the storage of the types `ts`, in order.
    pub open spec fn has_types(self, ts: Seq<ChannelType>) -> bool {
        &&& self.data.len() == ts.len()
        &&& forall|i: int| 0 <= i < ts.len() ==> (#[trigger] self.data[i]).has_type(ts[i])
    }
}

/// The decoder's state before any payload: empty columns, explicit modifiers, zero accumulators.
pub open spec fn initial_state(ts: Seq<ChannelType>) -> LexState {
    LexState {
        data: Seq::new(ts.len(), |i: int| empty_column(ts[i])),
        mods: Seq::new(ts.len(), |i: int| ValueModifier::Explicit),
        diffs: Seq::new(ts.len(), |i: int| null_value(ts[i])),
        index: 0,
        value: Seq::empty(),
        found: false,
        new_mod: ValueModifier::Explicit,
    }
}

/// Whether the pending text ends in a boolean letter.
pub open spec fn ends_in_bool(v: Seq<char>) -> bool {
    v.len() > 0 && (v.last() == 'T' || v.last() == 'F')
}

/// The sample and the new accumulator for integer value `v` under modifier `m`, given the
/// column's samples `xs` and its accumulator `acc`.
pub open spec fn int_step(xs: Seq<i64>, acc: i64, v: i64, m: ValueModifier) -> Result<
    (i64, i64),
    InkError,
> {
    match m {
        ValueModifier::Explicit => Ok((v, acc)),
        _ => if xs.len() == 0 {
            Err(InkError::MissingPrevious)
        } else {
            let sample: int = if m == ValueModifier::SingleDifference {
                xs.last() + v
            } else {
                xs.last() + v + acc
            };
            let next: int = acc + v;
            if i64::MIN <= sample <= i64::MAX && i64::MIN <= next <= i64::MAX {
                Ok((sample as i64, next as i64))
            } else {
                Err(InkError::Overflow)
            }
        },
    }
}

/// The decimal counterpart of `int_step`.
pub open spec fn dec_step(xs: Seq<Decimal>, acc: Decimal, v: Decimal, m: ValueModifier) -> Result<
    (Decimal, Decimal),
    InkError,
> {
    match m {
        ValueModifier::Explicit => Ok((v, acc)),
        _ => if xs.len() == 0 {
            Err(InkError::MissingPrevious)
        } else {
            let sample = if m == ValueModifier::SingleDifference {
                spec_add(xs.last(), v)
            } else {
                match spec_add(xs.last(), v) {
                    Some(s) => spec_add(s, acc),
                    None => None,
                }
            };
            match (sample, spec_add(acc, v)) {
                (Some(s), Some(n)) => Ok((s, n)),
                _ => Err(InkError::Overflow),
            }
        },
    }
}

/// Commits the pending text as the value of the current column.
pub open spec fn push_value(st: LexState) -> Result<LexState, InkError> {
    let i = st.index as int;
    let col: Result<(Column, ChannelDataEl), InkError> = match (st.data[i], st.diffs[i]) {
        (Column::Ints(xs), ChannelDataEl::Integer(acc)) => if ends_in_bool(st.value) {
            Err(InkError::TypeMismatch)
        } else {
            match int_of(st.value) {
                None => Err(InkError::InvalidNumber),
                Some(v) => match int_step(xs, acc, v, st.new_mod) {
                    Ok((s, n)) => Ok((Column::Ints(xs.push(s)), ChannelDataEl::Integer(n))),
                    Err(e) => Err(e),
                },
            }
        },
        (Column::Decs(xs), ChannelDataEl::Double(acc)) => if ends_in_bool(st.value) {
            Err(InkError::TypeMismatch)
        } else {
            match decimal_of(st.value) {
                None => Err(InkError::InvalidNumber),
                Some(v) => match dec_step(xs, acc, v, st.new_mod) {
                    Ok((s, n)) => Ok((Column::Decs(xs.push(s)), ChannelDataEl::Double(n))),
                    Err(e) => Err(e),
                },
            }
        },
        (Column::Bools(xs), _) => if st.value == seq!['T'] {
            Ok((Column::Bools(xs.push(true)), st.diffs[i]))
        } else if st.value == seq!['F'] {
            Ok((Column::Bools(xs.push(false)), st.diffs[i]))
        } else {
            Err(InkError::TypeMismatch)
        },
        _ => Err(InkError::TypeMismatch),
    };
    match col {
        Ok((c, d)) => Ok(
            LexState {
                data: st.data.update(i, c),
                mods: st.mods.update(i, st.new_mod),
                diffs: st.diffs.update(i, d),
                index: st.index + 1,
                value: Seq::empty(),
                found: false,
                new_mod: st.new_mod,
            },
        ),
        Err(e) => Err(e),
    }
}

/// Commits the pending value if there is one.
pub open spec fn flush(st: LexState) -> Result<LexState, InkError> {
    if st.found {
        push_value(st)
    } else {
        Ok(st)
    }
}

/// The modifier a modifier character stands for.
pub open spec fn modifier_of(c: char) -> Option<ValueModifier> {
    if c == '!' {
        Some(ValueModifier::Explicit)
    } else if c == '\'' {
        Some(ValueModifier::SingleDifference)
    } else if c == '"' {
        Some(ValueModifier::DoubleDifference)
    } else {
        None
    }
}

/// One character of a segment, read while a column is still expected.
pub open spec fn lex_char(st: LexState, c: char) -> Result<LexState, InkError> {
    if is_space(c) {
        flush(st)
    } else if modifier_of(c) is Some {
        flush(LexState { new_mod: modifier_of(c)->Some_0, ..st })
    } else if is_digit(c) || c == '.' {
        Ok(LexState { found: true, value: st.value.push(c), ..st })
    } else if c == '-' {
        if st.found {
            match push_value(st) {
                Ok(s2) => if s2.index < s2.data.len() {
                    Ok(
                        LexState {
                            found: true,
                            value: seq!['-'],
                            new_mod: s2.mods[s2.index as int],
                            ..s2
                        },
                    )
                } else {
                    Err(InkError::UnexpectedTrailing)
                },
                Err(e) => Err(e),
            }
        } else {
            Ok(LexState { found: true, value: st.value.push(c), ..st })
        }
    } else if c == 'T' || c == 'F' {
        push_value(LexState { found: true, value: st.value.push(c), ..st })
    } else {
        Err(InkError::UnexpectedChar(c))
    }
}

/// Reads `s[pos..end]` until every column has its value; the state and the position reached.
pub open spec fn lex_columns(st: LexState, s: Seq<char>, pos: int, end: int) -> Result<
    (LexState, int),
    InkError,
>
    decreases end - pos,
{
    if st.index >= st.data.len() {
        Ok((st, pos))
    } else if pos >= end {
        if st.found {
            match push_value(st) {
                Ok(s2) => if s2.index < s2.data.len() {
                    Err(InkError::TruncatedSegment)
                } else {
                    Ok((s2, pos))
                },
                Err(e) => Err(e),
            }
        } else {
            Err(InkError::TruncatedSegment)
        }
    } else {
        match lex_char(st, s[pos]) {
            Ok(s2) => lex_columns(s2, s, pos + 1, end),
            Err(e) => Err(e),
        }
    }
}

pub open spec fn all_space(s: Seq<char>, from: int, to: int) -> bool {
    forall|k: int| from <= k < to ==> is_space(#[trigger] s[k])
}

/// Decodes the segment `s[start..end]`: one value per column, then only whitespace.
pub open spec fn lex_segment(st: LexState, s: Seq<char>, start: int, end: int) -> Result<
    LexState,
    InkError,
> {
    if st.data.len() == 0 {
        Err(InkError::MissingChannel)
    } else {
        let st0 = LexState { index: 0, found: false, new_mod: st.mods[0], ..st };
        match lex_columns(st0, s, start, end) {
            Ok((s2, pos)) => if all_space(s, pos, end) {
                Ok(s2)
            } else {
                Err(InkError::UnexpectedTrailing)
            },
            Err(e) => Err(e),
        }
    }
}

/// The position of the first comma at or after `i`, or the length when there is none.
pub open spec fn next_comma(s: Seq<char>, i: int) -> int
    decreases s.len() - i,
{
    if i >= s.len() {
        s.len() as int
    } else if s[i] == ',' {
        i
    } else {
        next_comma(s, i + 1)
    }
}

/// Decodes the comma-separated segments from `start` on; a whitespace-only last segment is
/// ignored.
pub open spec fn lex_payload(st: LexState, s: Seq<char>, start: int) -> Result<LexState, InkError>
    decreases s.len() - start,
{
    if start > s.len() {
        Ok(st)
    } else {
        let end = next_comma(s, start);
        if end >= s.len() && all_space(s, start, end) {
            Ok(st)
        } else {
            match lex_segment(st, s, start, end) {
                Ok(s2) => if end >= s.len() {
                    Ok(s2)
                } else {
                    lex_payload(s2, s, end + 1)
                },
                Err(e) => Err(e),
            }
        }
    }
}

/// A copy of `v`, element by element.
fn copy_vec<T: Copy>(v: &Vec<T>) -> (r: Vec<T>)
    ensures
        r@ == v@,
{
    let mut r: Vec<T> = Vec::new();
    let mut i: usize = 0;
    while i < v.len()
        invariant
            i <= v@.len(),
            r@ == v@.subrange(0, i as int),
        decreases v@.len() - i,
    {
        r.push(v[i]);
        i = i + 1;
        assert(r@ =~= v@.subrange(0, i as int));
    }
    assert(r@ =~= v@);
    r
}

impl ChannelData {
    /// A copy of these samples.
    pub fn copy(&self) -> (r: ChannelData)
        ensures
            r@ == self@,
    {
        match self {
            ChannelData::Integer(v) => ChannelData::Integer(copy_vec(v)),
            ChannelData::Double(v) => ChannelData::Double(copy_vec(v)),
            ChannelData::Bool(v) => ChannelData::Bool(copy_vec(v)),
        }
    }

    /// The number of samples.
    pub fn len(&self) -> (r: usize)
        ensures
            r == self@.len(),
    {
        match self {
            ChannelData::Integer(v) => v.len(),
            ChannelData::Double(v) => v.len(),
            ChannelData::Bool(v) => v.len(),
        }
    }
}

fn int_step_exec(xs: &Vec<i64>, acc: i64, v: i64, m: ValueModifier) -> (r: Result<
    (i64, i64),
    InkError,
>)
    ensures
        r == int_step(xs@, acc, v, m),
{
    match m {
        ValueModifier::Explicit => Ok((v, acc)),
        _ => {
            if xs.len() == 0 {
                return Err(InkError::MissingPrevious);
            }
            let prev = xs[xs.len() - 1];
            let sample: i128 = if m == ValueModifier::SingleDifference {
                prev as i128 + v as i128
            } else {
                prev as i128 + v as i128 + acc as i128
            };
            let next: i128 = acc as i128 + v as i128;
            if i64::MIN as i128 <= sample && sample <= i64::MAX as i128 && i64::MIN as i128 <= next
                && next <= i64::MAX as i128 {
                Ok((sample as i64, next as i64))
            } else {
                Err(InkError::Overflow)
            }
        },
    }
}

fn dec_step_exec(xs: &Vec<Decimal>, acc: Decimal, v: Decimal, m: ValueModifier) -> (r: Result<
    (Decimal, Decimal),
    InkError,
>)
    requires
        forall|k: int| 0 <= k < xs@.len() ==> (#[trigger] xs@[k]).wf(),
        acc.wf(),
        v.wf(),
    ensures
        r == dec_step(xs@, acc, v, m),
        r matches Ok((a, b)) ==> a.wf() && b.wf(),
{
    match m {
        ValueModifier::Explicit => Ok((v, acc)),
        _ => {
            if xs.len() == 0 {
                return Err(InkError::MissingPrevious);
            }
            let prev = xs[xs.len() - 1];
            let sample = if m == ValueModifier::SingleDifference {
                checked_add(prev, v)
            } else {
                match checked_add(prev, v) {
                    Some(s) => checked_add(s, acc),
                    None => None,
                }
            };
            match (sample, checked_add(acc, v)) {
                (Some(s), Some(n)) => Ok((s, n)),
                _ => Err(InkError::Overflow),
            }
        },
    }
}

fn ends_in_bool_exec(v: &Vec<char>) -> (r: bool)
    ensures
        r == ends_in_bool(v@),
{
    v.len() > 0 && (v[v.len() - 1] == 'T' || v[v.len() - 1] == 'F')
}

fn is_single(v: &Vec<char>, c: char) -> (r: bool)
    ensures
        r == (v@ == seq![c]),
{
    let r = v.len() == 1 && v[0] == c;
    if v.len() == 1 {
        assert(v@ =~= seq![v@[0]]);
    }
    r
}

/// Decoder of the trace payload of one trace, column by column.
pub struct TraceData {
    data: Vec<ChannelData>,
    last_value_modifiers: Vec<ValueModifier>,
    last_value_difference: Vec<ChannelDataEl>,
    /// The column whose value is read next.
    index_channel: usize,
    /// The characters of the value being read.
    value_str: Vec<char>,
    /// Whether a value has started since the last commit.
    is_value_found: bool,
    /// The modifier the value being read is combined with.
    new_modifier: ValueModifier,
}

impl View for TraceData {
    type V = LexState;

    closed spec fn view(&self) -> LexState {
        LexState {
            data: column_views(self.data@),
            mods: self.last_value_modifiers@,
            diffs: self.last_value_difference@,
            index: self.index_channel as nat,
            value: self.value_str@,
            found: self.is_value_found,
            new_mod: self.new_modifier,
        }
    }
}

impl TraceData {
    /// A decoder for columns of the types `types`, in order.
    pub fn from_channel_types(types: Vec<ChannelType>) -> (r: TraceData)
        ensures
            r@ == initial_state(types@),
            r@.wf(),
            r@.has_types(types@),
    {
        let mut data: Vec<ChannelData> = Vec::new();
        let mut diffs: Vec<ChannelDataEl> = Vec::new();
        let mut mods: Vec<ValueModifier> = Vec::new();
        let mut i: usize = 0;
        while i < types.len()
            invariant
                i <= types@.len(),
                data@.len() == i,
                diffs@.len() == i,
                mods@.len() == i,
                forall|k: int| 0 <= k < i ==> (#[trigger] data@[k])@ == empty_column(types@[k]),
                forall|k: int| 0 <= k < i ==> #[trigger] diffs@[k] == null_value(types@[k]),
                forall|k: int| 0 <= k < i ==> #[trigger] mods@[k] == ValueModifier::Explicit,
            decreases types@.len() - i,
        {
            data.push(ChannelData::map_from_channel_type(types[i]));
            diffs.push(types[i].get_null_value());
            mods.push(ValueModifier::Explicit);
            i = i + 1;
        }
        let r = TraceData {
            data,
            last_value_modifiers: mods,
            last_value_difference: diffs,
            index_channel: 0,
            value_str: Vec::new(),
            is_value_found: false,
            new_modifier: ValueModifier::Explicit,
        };
        assert(r@.data =~= initial_state(types@).data);
        assert(r@.mods =~= initial_state(types@).mods);
        assert(r@.diffs =~= initial_state(types@).diffs);
        assert(r@.value =~= Seq::<char>::empty());
        r
    }

    /// The samples decoded so far, one entry per column.
    pub fn data(&self) -> (r: Vec<ChannelData>)
        ensures
            column_views(r@) == self@.data,
    {
        let mut r: Vec<ChannelData> = Vec::new();
        let mut i: usize = 0;
        while i < self.data.len()
            invariant
                i <= self.data@.len(),
                r@.len() == i,
                forall|k: int| 0 <= k < i ==> (#[trigger] r@[k])@ == self.data@[k]@,
            decreases self.data@.len() - i,
        {
            r.push(self.data[i].copy());
            i = i + 1;
        }
        assert(column_views(r@) =~= self@.data);
        r
    }

    /// Commits the pending text as the value of the current column.
    fn push_found_value(&mut self) -> (r: Result<(), InkError>)
        requires
            old(self)@.wf(),
            old(self)@.index < old(self)@.data.len(),
        ensures
            match push_value(old(self)@) {
                Ok(s) => r is Ok && final(self)@ == s && s.wf(),
                Err(e) => r == Err::<(), InkError>(e) && final(self)@ == old(self)@,
            },
    {
        let i = self.index_channel;
        let n = self.data.len();
        assert(i < n);
        let ghost st = self@;
        let col = self.data.remove(i);
        assert(col@ == st.data[i as int]);
        let acc = self.last_value_difference[i];
        // The column comes back in every case: extended on success, as it was on an error.
        let (c, res): (ChannelData, Result<ChannelDataEl, InkError>) = match col {
            ChannelData::Integer(mut xs) => match acc {
                ChannelDataEl::Integer(a) => {
                    if ends_in_bool_exec(&self.value_str) {
                        (ChannelData::Integer(xs), Err(InkError::TypeMismatch))
                    } else {
                        match parse_int(&self.value_str) {
                            None => (ChannelData::Integer(xs), Err(InkError::InvalidNumber)),
                            Some(v) => match int_step_exec(&xs, a, v, self.new_modifier) {
                                Ok((smp, nx)) => {
                                    xs.push(smp);
                                    (ChannelData::Integer(xs), Ok(ChannelDataEl::Integer(nx)))
                                },
                                Err(e) => (ChannelData::Integer(xs), Err(e)),
                            },
                        }
                    }
                },
                _ => (ChannelData::Integer(xs), Err(InkError::TypeMismatch)),
            },
            ChannelData::Double(mut xs) => match acc {
                ChannelDataEl::Double(a) => {
                    if ends_in_bool_exec(&self.value_str) {
                        (ChannelData::Double(xs), Err(InkError::TypeMismatch))
                    } else {
                        match parse_decimal(&self.value_str) {
                            None => (ChannelData::Double(xs), Err(InkError::InvalidNumber)),
                            Some(v) => match dec_step_exec(&xs, a, v, self.new_modifier) {
                                Ok((smp, nx)) => {
                                    xs.push(smp);
                                    (ChannelData::Double(xs), Ok(ChannelDataEl::Double(nx)))
                                },
                                Err(e) => (ChannelData::Double(xs), Err(e)),
                            },
                        }
                    }
                },
                _ => (ChannelData::Double(xs), Err(InkError::TypeMismatch)),
            },
            ChannelData::Bool(mut xs) => {
                if is_single(&self.value_str, 'T') {
                    xs.push(true);
                    (ChannelData::Bool(xs), Ok(acc))
                } else if is_single(&self.value_str, 'F') {
                    xs.push(false);
                    (ChannelData::Bool(xs), Ok(acc))
                } else {
                    (ChannelData::Bool(xs), Err(InkError::TypeMismatch))
                }
            },
        };
        self.data.insert(i, c);
        match res {
            Ok(d) => {
                self.last_value_difference.set(i, d);
                self.last_value_modifiers.set(i, self.new_modifier);
                self.value_str = Vec::new();
                self.index_channel = i + 1;
                self.is_value_found = false;
                proof {
                    let s2 = push_value(st)->Ok_0;
                    assert(self@.data =~= s2.data);
                    assert(self@.mods =~= s2.mods);
                    assert(self@.diffs =~= s2.diffs);
                    assert(self@.value =~= s2.value);
                    assert forall|k: int| 0 <= k < s2.data.len() implies (#[trigger] s2.data[k]).wf()
                        && diff_matches(s2.data[k], s2.diffs[k]) by {
                        if k != i {
                            assert(s2.data[k] == st.data[k]);
                        }
                    }
                }
                Ok(())
            },
            Err(e) => {
                assert(c@ == st.data[i as int]);
                assert(self@.data =~= st.data);
                Err(e)
            },
        }
    }

    /// Reads one character of a segment while a column is still expected.
    fn read_char(&mut self, c: char) -> (r: Result<(), InkError>)
        requires
            old(self)@.wf(),
            old(self)@.index < old(self)@.data.len(),
        ensures
            match lex_char(old(self)@, c) {
                Ok(s) => r is Ok && final(self)@ == s && s.wf(),
                Err(e) => r == Err::<(), InkError>(e),
            },
            final(self)@.wf(),
    {
        let ghost st = self@;
        if c == ' ' || c == '\r' || c == '\n' || c == '\t' {
            if self.is_value_found {
                self.push_found_value()
            } else {
                Ok(())
            }
        } else if c == '!' || c == '\'' || c == '"' {
            self.new_modifier = if c == '!' {
                ValueModifier::Explicit
            } else if c == '\'' {
                ValueModifier::SingleDifference
            } else {
                ValueModifier::DoubleDifference
            };
            assert(self@ == LexState { new_mod: modifier_of(c)->Some_0, ..st });
            if self.is_value_found {
                self.push_found_value()
            } else {
                Ok(())
            }
        } else if ('0' <= c && c <= '9') || c == '.' {
            self.is_value_found = true;
            self.value_str.push(c);
            Ok(())
        } else if c == '-' {
            if self.is_value_found {
                match self.push_found_value() {
                    Ok(()) => {},
                    Err(e) => {
                        return Err(e);
                    },
                }
                if self.index_channel < self.data.len() {
                    self.is_value_found = true;
                    self.value_str.push('-');
                    assert(self.value_str@ =~= seq!['-']);
                    self.new_modifier = self.last_value_modifiers[self.index_channel];
                    Ok(())
                } else {
                    Err(InkError::UnexpectedTrailing)
                }
            } else {
                self.is_value_found = true;
                self.value_str.push(c);
                Ok(())
            }
        } else if c == 'T' || c == 'F' {
            self.is_value_found = true;
            self.value_str.push(c);
            self.push_found_value()
        } else {
            Err(InkError::UnexpectedChar(c))
        }
    }

    /// Reads `s[start..end]` until every column has its value; the position reached.
    fn read_columns(&mut self, s: &Vec<char>, start: usize, end: usize) -> (r: Result<
        usize,
        InkError,
    >)
        requires
            old(self)@.wf(),
            start <= end <= s@.len(),
        ensures
            match lex_columns(old(self)@, s@, start as int, end as int) {
                Ok((st, p)) => r is Ok && r->Ok_0 as int == p && final(self)@ == st && st.wf(),
                Err(e) => r == Err::<usize, InkError>(e),
            },
            r matches Ok(p) ==> start <= p <= end,
            final(self)@.wf(),
    {
        let mut pos = start;
        loop
            invariant
                start <= pos <= end <= s@.len(),
                self@.wf(),
                lex_columns(self@, s@, pos as int, end as int) == lex_columns(
                    old(self)@,
                    s@,
                    start as int,
                    end as int,
                ),
            decreases end - pos,
        {
            if self.index_channel >= self.data.len() {
                return Ok(pos);
            }
            if pos >= end {
                if self.is_value_found {
                    match self.push_found_value() {
                        Ok(()) => {},
                        Err(e) => {
                            return Err(e);
                        },
                    }
                    if self.index_channel < self.data.len() {
                        return Err(InkError::TruncatedSegment);
                    }
                    return Ok(pos);
                }
                return Err(InkError::TruncatedSegment);
            }
            match self.read_char(s[pos]) {
                Ok(()) => {},
                Err(e) => {
                    return Err(e);
                },
            }
            pos = pos + 1;
        }
    }

    /// Decodes the segment `s[start..end]`.
    fn read_segment(&mut self, s: &Vec<char>, start: usize, end: usize) -> (r: Result<
        (),
        InkError,
    >)
        requires
            old(self)@.wf(),
            start <= end <= s@.len(),
        ensures
            match lex_segment(old(self)@, s@, start as int, end as int) {
                Ok(st) => r is Ok && final(self)@ == st && st.wf(),
                Err(e) => r == Err::<(), InkError>(e),
            },
            final(self)@.wf(),
    {
        if self.data.len() == 0 {
            return Err(InkError::MissingChannel);
        }
        self.index_channel = 0;
        self.is_value_found = false;
        self.new_modifier = self.last_value_modifiers[0];
        assert(self@ == LexState {
            index: 0,
            found: false,
            new_mod: old(self)@.mods[0],
            ..old(self)@
        });
        let pos = match self.read_columns(s, start, end) {
            Ok(p) => p,
            Err(e) => {
                return Err(e);
            },
        };
        let ghost st1 = self@;
        assert(lex_columns(
            LexState { index: 0, found: false, new_mod: old(self)@.mods[0], ..old(self)@ },
            s@,
            start as int,
            end as int,
        ) == Ok::<(LexState, int), InkError>((st1, pos as int)));
        if !all_space_exec(s, pos, end) {
            return Err(InkError::UnexpectedTrailing);
        }
        Ok(())
    }

    /// Decodes a trace payload: comma-separated samples, one value per column in each.
    pub fn parse_raw_data(&mut self, line_str: String) -> (r: Result<(), InkError>)
        requires
            old(self)@.wf(),
        ensures
            match lex_payload(old(self)@, line_str@, 0) {
                Ok(st) => r is Ok && final(self)@ == st && st.wf(),
                Err(e) => r == Err::<(), InkError>(e),
            },
            final(self)@.wf(),
    {
        let s = chars_of(line_str.as_str());
        let n = s.len();
        let mut start: usize = 0;
        loop
            invariant
                start <= n == s@.len(),
                s@ == line_str@,
                self@.wf(),
                lex_payload(self@, s@, start as int) == lex_payload(old(self)@, s@, 0),
            decreases n - start,
        {
            let end = next_comma_exec(&s, start);
            if end >= n && all_space_exec(&s, start, end) {
                return Ok(());
            }
            match self.read_segment(&s, start, end) {
                Ok(()) => {},
                Err(e) => {
                    return Err(e);
                },
            }
            if end >= n {
                return Ok(());
            }
            start = end + 1;
        }
    }
}

fn next_comma_exec(s: &Vec<char>, start: usize) -> (r: usize)
    requires
        start <= s@.len(),
    ensures
        r == next_comma(s@, start as int),
        start <= r <= s@.len(),
{
    let mut i = start;
    while i < s.len() && s[i] != ','
        invariant
            start <= i <= s@.len(),
            next_comma(s@, i as int) == next_comma(s@, start as int),
        decreases s@.len() - i,
    {
        i = i + 1;
    }
    i
}

fn all_space_exec(s: &Vec<char>, from: usize, to: usize) -> (r: bool)
    requires
        from <= to <= s@.len(),
    ensures
        r == all_space(s@, from as int, to as int),
{
    let mut k = from;
    while k < to
        invariant
            from <= k <= to <= s@.len(),
            all_space(s@, from as int, k as int),
        decreases to - k,
    {
        let c = s[k];
        if !(c == ' ' || c == '\r' || c == '\n' || c == '\t') {
            assert(!is_space(s@[k as int]));
            return false;
        }
        k = k + 1;
    }
    true
}

/// Strokes in physical units: x and y in centimetres, f between 0 and 1.
#[derive(Clone, Debug)]
pub struct FormattedStroke {
    pub x: Vec<Rational>,
    pub y: Vec<Rational>,
    pub f: Vec<Rational>,
}

pub open spec fn fits_i128(v: int) -> bool {
    i128::MIN <= v <= i128::MAX
}

/// The exact product of the `k`-th sample of `c` with `q`, when it fits.
pub open spec fn scaled_sample(c: Column, k: int, q: Rational) -> Option<Rational> {
    let (n, d): (int, int) = match c {
        Column::Ints(s) => (s[k] * q.num, q.den as int),
        Column::Decs(s) => (s[k].mantissa * q.num, pow10(s[k].scale as nat) * q.den),
        Column::Bools(s) => (if s[k] {
            q.num as int
        } else {
            0
        }, q.den as int),
    };
    if fits_i128(n) && fits_i128(d) {
        Some(Rational { num: n as i128, den: d as i128 })
    } else {
        None
    }
}

/// Every sample of `c` multiplied by `q`; `Overflow` when a product does not fit.
pub open spec fn scaled_column(c: Column, q: Rational) -> Result<Seq<Rational>, InkError> {
    if forall|k: int| 0 <= k < c.len() ==> (#[trigger] scaled_sample(c, k, q)) is Some {
        Ok(Seq::new(c.len(), |k: int| scaled_sample(c, k, q)->Some_0))
    } else {
        Err(InkError::Overflow)
    }
}

impl ChannelData {
    /// Every sample multiplied by `scaling`: the samples in physical units.
    pub fn scaled(&self, scaling: Rational) -> (r: Result<Vec<Rational>, InkError>)
        requires
            self@.wf(),
            scaling.wf(),
        ensures
            match scaled_column(self@, scaling) {
                Ok(v) => r matches Ok(w) && w@ == v,
                Err(e) => r == Err::<Vec<Rational>, InkError>(e),
            },
            r matches Ok(w) ==> forall|k: int| 0 <= k < w@.len() ==> (#[trigger] w@[k]).wf(),
    {
        let n = self.len();
        let mut out: Vec<Rational> = Vec::new();
        let mut k: usize = 0;
        while k < n
            invariant
                k <= n == self@.len(),
                self@.wf(),
                scaling.wf(),
                out@.len() == k,
                forall|j: int| 0 <= j < k ==> scaled_sample(self@, j, scaling) == Some(
                    #[trigger] out@[j],
                ),
                forall|j: int| 0 <= j < k ==> (#[trigger] out@[j]).wf(),
            decreases n - k,
        {
            let item: Option<Rational> = match self {
                ChannelData::Integer(v) => match (v[k] as i128).checked_mul(scaling.num) {
                    Some(num) => Some(Rational { num, den: scaling.den }),
                    None => None,
                },
                ChannelData::Double(v) => {
                    let d = v[k];
                    match (d.mantissa as i128).checked_mul(scaling.num) {
                        Some(num) => match pow10_exec(d.scale).checked_mul(scaling.den) {
                            Some(den) => Some(Rational { num, den }),
                            None => None,
                        },
                        None => None,
                    }
                },
                ChannelData::Bool(v) => Some(
                    Rational {
                        num: if v[k] {
                            scaling.num
                        } else {
                            0
                        },
                        den: scaling.den,
                    },
                ),
            };
            match item {
                Some(q) => {
                    proof {
                        if let Column::Decs(s) = self@ {
                            assert(s[k as int].wf());
                            crate::number::lemma_pow10_positive(s[k as int].scale as nat);
                            assert(pow10(s[k as int].scale as nat) * scaling.den > 0)
                                by (nonlinear_arith)
                                requires
                                    pow10(s[k as int].scale as nat) >= 1,
                                    scaling.den > 0,
                            ;
                        }
                    }
                    out.push(q);
                },
                None => {
                    assert(scaled_sample(self@, k as int, scaling) is None);
                    return Err(InkError::Overflow);
                },
            }
            k = k + 1;
        }
        assert forall|j: int| 0 <= j < self@.len() implies (#[trigger] scaled_sample(
            self@,
            j,
            scaling,
        )) is Some by {
            assert(scaled_sample(self@, j, scaling) == Some(out@[j]));
        }
        assert(out@ =~= Seq::new(self@.len(), |j: int| scaled_sample(self@, j, scaling)->Some_0));
        Ok(out)
    }
}

/// Columns `[0, index)` hold `l + 1` samples, the others `l`.
pub open spec fn balanced(st: LexState, l: nat) -> bool {
    forall|i: int|
        0 <= i < st.data.len() ==> (#[trigger] st.data[i]).len() == if i < st.index {
            l + 1
        } else {
            l
        }
}

/// Every column holds as many samples as every other.
pub open spec fn uniform(d: Seq<Column>) -> bool {
    forall|i: int, j: int| 0 <= i < d.len() && 0 <= j < d.len() ==> (#[trigger] d[i]).len() == (
    #[trigger] d[j]).len()
}

proof fn lemma_push_shape(st: LexState, ts: Seq<ChannelType>, l: nat)
    requires
        st.index < st.data.len(),
        push_value(st) is Ok,
    ensures
        ({
            let s2 = push_value(st)->Ok_0;
            &&& s2.data.len() == st.data.len()
            &&& s2.index == st.index + 1
            &&& st.has_types(ts) ==> s2.has_types(ts)
            &&& balanced(st, l) ==> balanced(s2, l)
        }),
{
    let s2 = push_value(st)->Ok_0;
    let i = st.index as int;
    assert(s2.data[i].len() == st.data[i].len() + 1);
    if st.has_types(ts) {
        assert forall|k: int| 0 <= k < ts.len() implies (#[trigger] s2.data[k]).has_type(ts[k]) by {
            if k != i {
                assert(s2.data[k] == st.data[k]);
            } else {
                assert(st.data[k].has_type(ts[k]));
            }
        }
    }
    if balanced(st, l) {
        assert forall|k: int| 0 <= k < s2.data.len() implies (#[trigger] s2.data[k]).len() == if k
            < s2.index {
            l + 1
        } else {
            l
        } by {
            if k != i {
                assert(s2.data[k] == st.data[k]);
            } else {
                assert(st.data[k].len() == l);
            }
        }
    }
}

proof fn lemma_char_shape(st: LexState, c: char, ts: Seq<ChannelType>, l: nat)
    requires
        st.index < st.data.len(),
        lex_char(st, c) is Ok,
    ensures
        ({
            let s2 = lex_char(st, c)->Ok_0;
            &&& s2.data.len() == st.data.len()
            &&& st.index <= s2.index <= st.data.len()
            &&& st.has_types(ts) ==> s2.has_types(ts)
            &&& balanced(st, l) ==> balanced(s2, l)
        }),
{
    if is_space(c) {
        if st.found {
            lemma_push_shape(st, ts, l);
        }
    } else if modifier_of(c) is Some {
        let st1 = LexState { new_mod: modifier_of(c)->Some_0, ..st };
        if st.found {
            lemma_push_shape(st1, ts, l);
        }
    } else if is_digit(c) || c == '.' {
    } else if c == '-' {
        if st.found {
            lemma_push_shape(st, ts, l);
        }
    } else if c == 'T' || c == 'F' {
        let st1 = LexState { found: true, value: st.value.push(c), ..st };
        lemma_push_shape(st1, ts, l);
    }
}

proof fn lemma_columns_shape(st: LexState, s: Seq<char>, pos: int, end: int, ts: Seq<ChannelType>, l: nat)
    requires
        st.index <= st.data.len(),
        lex_columns(st, s, pos, end) is Ok,
    ensures
        ({
            let s2 = lex_columns(st, s, pos, end)->Ok_0.0;
            &&& s2.data.len() == st.data.len()
            &&& s2.index >= s2.data.len()
            &&& st.has_types(ts) ==> s2.has_types(ts)
            &&& balanced(st, l) ==> balanced(s2, l)
        }),
    decreases end - pos,
{
    if st.index >= st.data.len() {
    } else if pos >= end {
        lemma_push_shape(st, ts, l);
    } else {
        lemma_char_shape(st, s[pos], ts, l);
        lemma_columns_shape(lex_char(st, s[pos])->Ok_0, s, pos + 1, end, ts, l);
    }
}

proof fn lemma_segment_shape(st: LexState, s: Seq<char>, start: int, end: int, ts: Seq<ChannelType>)
    requires
        uniform(st.data),
        lex_segment(st, s, start, end) is Ok,
    ensures
        ({
            let s2 = lex_segment(st, s, start, end)->Ok_0;
            &&& s2.data.len() == st.data.len()
            &&& uniform(s2.data)
            &&& st.has_types(ts) ==> s2.has_types(ts)
        }),
{
    let l = st.data[0].len();
    let st0 = LexState { index: 0, found: false, new_mod: st.mods[0], ..st };
    assert(balanced(st0, l)) by {
        assert forall|i: int| 0 <= i < st0.data.len() implies (#[trigger] st0.data[i]).len() == if i
            < st0.index {
            l + 1
        } else {
            l
        } by {
            assert(st.data[i].len() == st.data[0].len());
        }
    }
    assert(st.has_types(ts) ==> st0.has_types(ts));
    lemma_columns_shape(st0, s, start, end, ts, l);
    let s2 = lex_segment(st, s, start, end)->Ok_0;
    assert forall|i: int, j: int| 0 <= i < s2.data.len() && 0 <= j < s2.data.len() implies (
    #[trigger] s2.data[i]).len() == (#[trigger] s2.data[j]).len() by {
        assert(s2.data[i].len() == l + 1);
        assert(s2.data[j].len() == l + 1);
    }
}

/// Decoding a payload keeps every column in the storage of its type and gives every
/// column the same number of samples.
pub proof fn lemma_payload_shape(st: LexState, s: Seq<char>, start: int, ts: Seq<ChannelType>)
    requires
        0 <= start,
        uniform(st.data),
        lex_payload(st, s, start) is Ok,
    ensures
        ({
            let s2 = lex_payload(st, s, start)->Ok_0;
            &&& s2.data.len() == st.data.len()
            &&& uniform(s2.data)
            &&& st.has_types(ts) ==> s2.has_types(ts)
        }),
    decreases s.len() - start,
{
    if start > s.len() {
    } else {
        let end = next_comma(s, start);
        if end >= s.len() && all_space(s, start, end) {
        } else {
            lemma_segment_shape(st, s, start, end, ts);
            let s2 = lex_segment(st, s, start, end)->Ok_0;
            if end < s.len() {
                lemma_next_comma_bound(s, start);
                lemma_payload_shape(s2, s, end + 1, ts);
            }
        }
    }
}

proof fn lemma_next_comma_bound(s: Seq<char>, i: int)
    requires
        0 <= i,
    ensures
        i <= s.len() ==> i <= next_comma(s, i) <= s.len(),
    decreases s.len() - i,
{
    if i < s.len() && s[i] != ',' {
        lemma_next_comma_bound(s, i + 1);
    }
}

/// The samples decoded for columns of types `ts`: one column per type, each in the storage
/// of its type, all of the same length.
pub proof fn lemma_decoded_columns(ts: Seq<ChannelType>, s: Seq<char>)
    requires
        lex_payload(initial_state(ts), s, 0) is Ok,
    ensures
        ({
            let d = lex_payload(initial_state(ts), s, 0)->Ok_0.data;
            &&& d.len() == ts.len()
            &&& forall|i: int| 0 <= i < ts.len() ==> (#[trigger] d[i]).has_type(ts[i])
            &&& uniform(d)
        }),
{
    let st = initial_state(ts);
    assert(st.has_types(ts)) by {
        assert forall|i: int| 0 <= i < ts.len() implies (#[trigger] st.data[i]).has_type(ts[i]) by {
            assert(st.data[i] == empty_column(ts[i]));
        }
    }
    assert(uniform(st.data)) by {
        assert forall|i: int, j: int| 0 <= i < st.data.len() && 0 <= j < st.data.len() implies (
        #[trigger] st.data[i]).len() == (#[trigger] st.data[j]).len() by {
            assert(st.data[i] == empty_column(ts[i]));
            assert(st.data[j] == empty_column(ts[j]));
        }
    }
    lemma_payload_shape(st, s, 0, ts);
}

} // verus!
