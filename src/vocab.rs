//! The closed vocabularies of the format: channel kinds, numeric types and units.
use vstd::prelude::*;

use crate::error::{InkError, VocabularyKind};
use crate::number::{mul_pow10, pow10, spec_mul_pow10, Decimal};
use crate::text::{opt_is, opt_view};

verus! {

/// What a channel measures.
#[derive(Clone, Copy, Debug, PartialEq, Eq, Structural)]
pub enum ChannelKind {
    /// Horizontal position, left to right.
    X,
    /// Vertical position, top to bottom.
    Y,
    /// Pen force or pressure.
    F,
    /// Azimuth angle of the pen.
    OA,
    /// Elevation angle of the pen.
    OE,
    OTx,
    OTy,
}

/// How the samples of a channel are encoded.
#[derive(Clone, Copy, Debug, PartialEq, Eq, Structural)]
pub enum ChannelType {
    Integer,
    Decimal,
    Double,
    Bool,
}

/// The unit in which a channel's resolution is counted.
#[derive(Clone, Copy, Debug, PartialEq, Eq, Structural)]
pub enum ResolutionUnits {
    OneOverCm,
    OneOverMm,
    OneOverDev,
    OneOverDegree,
    OneOverHimetric,
}

/// The physical unit of a channel or of a brush dimension.
#[allow(non_camel_case_types)]
#[derive(Clone, Copy, Debug, PartialEq, Eq, Structural)]
pub enum ChannelUnit {
    mm,
    cm,
    m,
    dev,
    deg,
    himetric,
}

pub open spec fn kind_named(s: Seq<char>) -> Option<ChannelKind> {
    if s == "X"@ {
        Some(ChannelKind::X)
    } else if s == "Y"@ {
        Some(ChannelKind::Y)
    } else if s == "F"@ {
        Some(ChannelKind::F)
    } else if s == "OA"@ {
        Some(ChannelKind::OA)
    } else if s == "OE"@ {
        Some(ChannelKind::OE)
    } else if s == "OTx"@ {
        Some(ChannelKind::OTx)
    } else if s == "OTy"@ {
        Some(ChannelKind::OTy)
    } else {
        None
    }
}

pub open spec fn type_named(s: Seq<char>) -> Option<ChannelType> {
    if s == "integer"@ {
        Some(ChannelType::Integer)
    } else if s == "decimal"@ {
        Some(ChannelType::Decimal)
    } else if s == "double"@ {
        Some(ChannelType::Double)
    } else if s == "boolean"@ {
        Some(ChannelType::Bool)
    } else {
        None
    }
}

pub open spec fn resolution_unit_named(s: Seq<char>) -> Option<ResolutionUnits> {
    if s == "1/cm"@ {
        Some(ResolutionUnits::OneOverCm)
    } else if s == "1/mm"@ {
        Some(ResolutionUnits::OneOverMm)
    } else if s == "1/dev"@ {
        Some(ResolutionUnits::OneOverDev)
    } else if s == "1/deg"@ {
        Some(ResolutionUnits::OneOverDegree)
    } else if s == "1/himetric"@ {
        Some(ResolutionUnits::OneOverHimetric)
    } else {
        None
    }
}

pub open spec fn unit_named(s: Seq<char>) -> Option<ChannelUnit> {
    if s == "mm"@ {
        Some(ChannelUnit::mm)
    } else if s == "cm"@ {
        Some(ChannelUnit::cm)
    } else if s == "m"@ {
        Some(ChannelUnit::m)
    } else if s == "dev"@ {
        Some(ChannelUnit::dev)
    } else if s == "deg"@ {
        Some(ChannelUnit::deg)
    } else if s == "himetric"@ {
        Some(ChannelUnit::himetric)
    } else {
        None
    }
}

/// The word of an optional string in a vocabulary, or the error that names the vocabulary.
pub open spec fn lookup<T>(
    s: Option<Seq<char>>,
    named: spec_fn(Seq<char>) -> Option<T>,
    which: VocabularyKind,
) -> Result<T, InkError> {
    match s {
        Some(v) => match named(v) {
            Some(t) => Ok(t),
            None => Err(InkError::InvalidVocabulary(which)),
        },
        None => Err(InkError::InvalidVocabulary(which)),
    }
}

impl ChannelKind {
    /// Reads a channel name (`X`, `Y`, `F`, `OA`, `OE`, `OTx`, `OTy`).
    pub fn parse(name: &Option<String>) -> (r: Result<ChannelKind, InkError>)
        ensures
            r == lookup(opt_view(*name), |s| kind_named(s), VocabularyKind::Kind),
    {
        let r = if opt_is(name, "X") {
            Ok(ChannelKind::X)
        } else if opt_is(name, "Y") {
            Ok(ChannelKind::Y)
        } else if opt_is(name, "F") {
            Ok(ChannelKind::F)
        } else if opt_is(name, "OA") {
            Ok(ChannelKind::OA)
        } else if opt_is(name, "OE") {
            Ok(ChannelKind::OE)
        } else if opt_is(name, "OTx") {
            Ok(ChannelKind::OTx)
        } else if opt_is(name, "OTy") {
            Ok(ChannelKind::OTy)
        } else {
            Err(InkError::InvalidVocabulary(VocabularyKind::Kind))
        };
        r
    }

    pub open spec fn spec_default_resolution_unit(self) -> ResolutionUnits {
        match self {
            ChannelKind::X | ChannelKind::Y => ResolutionUnits::OneOverCm,
            ChannelKind::F => ResolutionUnits::OneOverDev,
            _ => ResolutionUnits::OneOverDegree,
        }
    }

    pub open spec fn spec_default_unit(self) -> ChannelUnit {
        match self {
            ChannelKind::X | ChannelKind::Y => ChannelUnit::cm,
            ChannelKind::F => ChannelUnit::dev,
            _ => ChannelUnit::deg,
        }
    }

    /// 1/cm for positions, 1/dev for force, 1/deg for angles.
    pub fn get_default_resolution_unit(&self) -> (r: ResolutionUnits)
        ensures
            r == self.spec_default_resolution_unit(),
    {
        match self {
            ChannelKind::X | ChannelKind::Y => ResolutionUnits::OneOverCm,
            ChannelKind::F => ResolutionUnits::OneOverDev,
            ChannelKind::OA | ChannelKind::OE | ChannelKind::OTx | ChannelKind::OTy => {
                ResolutionUnits::OneOverDegree
            },
        }
    }

    /// cm for positions, dev for force, deg for angles.
    pub fn get_default_unit(&self) -> (r: ChannelUnit)
        ensures
            r == self.spec_default_unit(),
    {
        match self {
            ChannelKind::X | ChannelKind::Y => ChannelUnit::cm,
            ChannelKind::F => ChannelUnit::dev,
            ChannelKind::OA | ChannelKind::OE | ChannelKind::OTx | ChannelKind::OTy => {
                ChannelUnit::deg
            },
        }
    }

    pub open spec fn spec_name(self) -> Seq<char> {
        match self {
            ChannelKind::X => "X"@,
            ChannelKind::Y => "Y"@,
            ChannelKind::F => "F"@,
            ChannelKind::OA => "OA"@,
            ChannelKind::OE => "OE"@,
            ChannelKind::OTx => "OTx"@,
            ChannelKind::OTy => "OTy"@,
        }
    }

    /// The name under which the kind is written.
    pub fn name(&self) -> (r: String)
        ensures
            r@ == self.spec_name(),
    {
        match self {
            ChannelKind::X => "X".to_owned(),
            ChannelKind::Y => "Y".to_owned(),
            ChannelKind::F => "F".to_owned(),
            ChannelKind::OA => "OA".to_owned(),
            ChannelKind::OE => "OE".to_owned(),
            ChannelKind::OTx => "OTx".to_owned(),
            ChannelKind::OTy => "OTy".to_owned(),
        }
    }
}

impl ChannelType {
    /// Reads a type name (`integer`, `decimal`, `double`, `boolean`).
    pub fn parse(name: &Option<String>) -> (r: Result<ChannelType, InkError>)
        ensures
            r == lookup(opt_view(*name), |s| type_named(s), VocabularyKind::Type),
    {
        if opt_is(name, "integer") {
            Ok(ChannelType::Integer)
        } else if opt_is(name, "decimal") {
            Ok(ChannelType::Decimal)
        } else if opt_is(name, "double") {
            Ok(ChannelType::Double)
        } else if opt_is(name, "boolean") {
            Ok(ChannelType::Bool)
        } else {
            Err(InkError::InvalidVocabulary(VocabularyKind::Type))
        }
    }

    pub open spec fn spec_name(self) -> Seq<char> {
        match self {
            ChannelType::Integer => "integer"@,
            ChannelType::Decimal => "decimal"@,
            ChannelType::Double => "double"@,
            ChannelType::Bool => "bool"@,
        }
    }

    /// The name under which the type is written.
    pub fn name(&self) -> (r: String)
        ensures
            r@ == self.spec_name(),
    {
        match self {
            ChannelType::Integer => "integer".to_owned(),
            ChannelType::Decimal => "decimal".to_owned(),
            ChannelType::Double => "double".to_owned(),
            ChannelType::Bool => "bool".to_owned(),
        }
    }
}

impl ResolutionUnits {
    /// Reads a resolution unit (`1/cm`, `1/mm`, `1/dev`, `1/deg`, `1/himetric`).
    pub fn parse(name: &Option<String>) -> (r: Result<ResolutionUnits, InkError>)
        ensures
            r == lookup(opt_view(*name), |s| resolution_unit_named(s), VocabularyKind::ResolutionUnit),
    {
        if opt_is(name, "1/cm") {
            Ok(ResolutionUnits::OneOverCm)
        } else if opt_is(name, "1/mm") {
            Ok(ResolutionUnits::OneOverMm)
        } else if opt_is(name, "1/dev") {
            Ok(ResolutionUnits::OneOverDev)
        } else if opt_is(name, "1/deg") {
            Ok(ResolutionUnits::OneOverDegree)
        } else if opt_is(name, "1/himetric") {
            Ok(ResolutionUnits::OneOverHimetric)
        } else {
            Err(InkError::InvalidVocabulary(VocabularyKind::ResolutionUnit))
        }
    }

    pub open spec fn spec_name(self) -> Seq<char> {
        match self {
            ResolutionUnits::OneOverCm => "1/cm"@,
            ResolutionUnits::OneOverMm => "1/mm"@,
            ResolutionUnits::OneOverDev => "1/dev"@,
            ResolutionUnits::OneOverDegree => "1/deg"@,
            ResolutionUnits::OneOverHimetric => "1/himetric"@,
        }
    }

    /// The name under which the unit is written.
    pub fn name(&self) -> (r: String)
        ensures
            r@ == self.spec_name(),
    {
        match self {
            ResolutionUnits::OneOverCm => "1/cm".to_owned(),
            ResolutionUnits::OneOverMm => "1/mm".to_owned(),
            ResolutionUnits::OneOverDev => "1/dev".to_owned(),
            ResolutionUnits::OneOverDegree => "1/deg".to_owned(),
            ResolutionUnits::OneOverHimetric => "1/himetric".to_owned(),
        }
    }
}

impl ChannelUnit {
    /// Reads a unit name (`mm`, `cm`, `m`, `dev`, `deg`, `himetric`); `None` when absent or unknown.
    pub fn parse(name: &Option<String>) -> (r: Option<ChannelUnit>)
        ensures
            r == (match *name {
                Some(v) => unit_named(v@),
                None => None,
            }),
    {
        if opt_is(name, "mm") {
            Some(ChannelUnit::mm)
        } else if opt_is(name, "cm") {
            Some(ChannelUnit::cm)
        } else if opt_is(name, "m") {
            Some(ChannelUnit::m)
        } else if opt_is(name, "dev") {
            Some(ChannelUnit::dev)
        } else if opt_is(name, "deg") {
            Some(ChannelUnit::deg)
        } else if opt_is(name, "himetric") {
            Some(ChannelUnit::himetric)
        } else {
            None
        }
    }

    pub open spec fn spec_name(self) -> Seq<char> {
        match self {
            ChannelUnit::mm => "mm"@,
            ChannelUnit::cm => "cm"@,
            ChannelUnit::m => "m"@,
            ChannelUnit::dev => "dev"@,
            ChannelUnit::deg => "deg"@,
            ChannelUnit::himetric => "himetric"@,
        }
    }

    /// The name under which the unit is written.
    pub fn name(&self) -> (r: String)
        ensures
            r@ == self.spec_name(),
    {
        match self {
            ChannelUnit::mm => "mm".to_owned(),
            ChannelUnit::cm => "cm".to_owned(),
            ChannelUnit::m => "m".to_owned(),
            ChannelUnit::dev => "dev".to_owned(),
            ChannelUnit::deg => "deg".to_owned(),
            ChannelUnit::himetric => "himetric".to_owned(),
        }
    }
}

/// The power of ten that takes a length in `from` to one in `to`; `None` for pairs that
/// do not convert.
pub open spec fn conversion_exponent(from: ChannelUnit, to: ChannelUnit) -> Option<int> {
    match (from, to) {
        (ChannelUnit::mm, ChannelUnit::mm) => Some(0),
        (ChannelUnit::mm, ChannelUnit::cm) => Some(-1),
        (ChannelUnit::mm, ChannelUnit::m) => Some(-3),
        (ChannelUnit::cm, ChannelUnit::mm) => Some(1),
        (ChannelUnit::cm, ChannelUnit::cm) => Some(0),
        (ChannelUnit::cm, ChannelUnit::m) => Some(-2),
        (ChannelUnit::m, ChannelUnit::mm) => Some(3),
        (ChannelUnit::m, ChannelUnit::cm) => Some(2),
        (ChannelUnit::m, ChannelUnit::m) => Some(0),
        (ChannelUnit::deg, ChannelUnit::deg) => Some(0),
        (ChannelUnit::dev, ChannelUnit::dev) => Some(0),
        (ChannelUnit::himetric, ChannelUnit::cm) => Some(-3),
        (ChannelUnit::himetric, ChannelUnit::mm) => Some(-2),
        (ChannelUnit::himetric, ChannelUnit::m) => Some(-5),
        _ => None,
    }
}

/// `v` in `from` expressed in `to`.
pub open spec fn convert_spec(from: ChannelUnit, to: ChannelUnit, v: Decimal) -> Result<
    Decimal,
    InkError,
> {
    match conversion_exponent(from, to) {
        None => Err(InkError::IncompatibleUnits(from, to)),
        Some(k) => match spec_mul_pow10(v, k) {
            Some(d) => Ok(d),
            None => Err(InkError::Overflow),
        },
    }
}

impl ChannelUnit {
    /// Converts `input_value` from this unit to `output_unit`: metric lengths by powers of
    /// ten, himetric to metric lengths, and each angle or device unit to itself.
    pub fn convert_to(&self, output_unit: ChannelUnit, input_value: Decimal) -> (r: Result<
        Decimal,
        InkError,
    >)
        requires
            input_value.wf(),
        ensures
            r == convert_spec(*self, output_unit, input_value),
            r matches Ok(d) ==> d.wf(),
    {
        let k: i32 = match (self, output_unit) {
            (ChannelUnit::mm, ChannelUnit::mm) => 0,
            (ChannelUnit::mm, ChannelUnit::cm) => -1,
            (ChannelUnit::mm, ChannelUnit::m) => -3,
            (ChannelUnit::cm, ChannelUnit::mm) => 1,
            (ChannelUnit::cm, ChannelUnit::cm) => 0,
            (ChannelUnit::cm, ChannelUnit::m) => -2,
            (ChannelUnit::m, ChannelUnit::mm) => 3,
            (ChannelUnit::m, ChannelUnit::cm) => 2,
            (ChannelUnit::m, ChannelUnit::m) => 0,
            (ChannelUnit::deg, ChannelUnit::deg) => 0,
            (ChannelUnit::dev, ChannelUnit::dev) => 0,
            (ChannelUnit::himetric, ChannelUnit::cm) => -3,
            (ChannelUnit::himetric, ChannelUnit::mm) => -2,
            (ChannelUnit::himetric, ChannelUnit::m) => -5,
            _ => {
                return Err(InkError::IncompatibleUnits(*self, output_unit));
            },
        };
        match mul_pow10(input_value, k) {
            Some(d) => Ok(d),
            None => Err(InkError::Overflow),
        }
    }
}

/// Converting a value to its own unit returns it unchanged, for every unit that converts
/// to itself (all but himetric).
pub proof fn lemma_convert_identity(u: ChannelUnit, v: Decimal)
    requires
        v.wf(),
        u != ChannelUnit::himetric,
    ensures
        convert_spec(u, u, v) == Ok::<Decimal, InkError>(v),
{
}

/// m to mm and back, and cm to m and back, give a number equal to the one converted,
/// whenever both conversions succeed.
pub proof fn lemma_convert_round_trip(v: Decimal)
    requires
        v.wf(),
    ensures
        convert_spec(ChannelUnit::m, ChannelUnit::mm, v) matches Ok(w) ==> (convert_spec(
            ChannelUnit::mm,
            ChannelUnit::m,
            w,
        ) matches Ok(x) ==> x.same_value(v)),
        convert_spec(ChannelUnit::cm, ChannelUnit::m, v) matches Ok(w) ==> (convert_spec(
            ChannelUnit::m,
            ChannelUnit::cm,
            w,
        ) matches Ok(x) ==> x.same_value(v)),
{
    lemma_mul_pow10_round_trip(v, 3);
    lemma_mul_pow10_round_trip(v, -2);
}

proof fn lemma_mul_pow10_round_trip(v: Decimal, k: int)
    requires
        v.wf(),
        -18 <= k <= 18,
    ensures
        spec_mul_pow10(v, k) matches Some(w) ==> (spec_mul_pow10(w, -k) matches Some(x)
            ==> x.same_value(v)),
{
    if let Some(w) = spec_mul_pow10(v, k) {
        if let Some(x) = spec_mul_pow10(w, -k) {
            if k >= 0 && v.scale < k {
                let e = (k - v.scale) as nat;
                crate::number::lemma_pow10_add(e, v.scale as nat);
                assert(x.mantissa == v.mantissa * pow10(e));
                assert(x.scale as nat == k);
                assert(x.mantissa * pow10(v.scale as nat) == v.mantissa * pow10(x.scale as nat))
                    by (nonlinear_arith)
                    requires
                        x.mantissa == v.mantissa * pow10(e),
                        pow10(x.scale as nat) == pow10(e) * pow10(v.scale as nat),
                ;
            } else if k < 0 && w.scale < -k {
                let e = (-k - w.scale) as nat;
                assert(w.scale == v.scale - k);
                assert(false);
            }
        }
    }
}

} // verus!
