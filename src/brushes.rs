//! Brushes, and the registry that collapses equal brushes to one emitted entry.
use vstd::prelude::*;

use crate::number::Decimal;
use crate::text::{chars_of, int_text, int_to_text, string_of};

verus! {

/// How strokes are drawn: color, width, transparency and pressure behaviour.
#[derive(Debug)]
pub struct Brush {
    /// The id the brush is referred to by (`<brush xml:id="...">`).
    pub name: String,
    /// Red, green and blue.
    pub color: (u8, u8, u8),
    /// Width in centimetres.
    pub stroke_width: Decimal,
    pub ignorepressure: bool,
    pub transparency: u8,
}

/// The content of a `Brush`.
pub struct BrushView {
    pub name: Seq<char>,
    pub color: (u8, u8, u8),
    pub stroke_width: Decimal,
    pub ignorepressure: bool,
    pub transparency: u8,
}

impl View for Brush {
    type V = BrushView;

    open spec fn view(&self) -> BrushView {
        BrushView {
            name: self.name@,
            color: self.color,
            stroke_width: self.stroke_width,
            ignorepressure: self.ignorepressure,
            transparency: self.transparency,
        }
    }
}

impl BrushView {
    pub open spec fn wf(self) -> bool {
        self.stroke_width.wf()
    }
}

impl Brush {

    pub open spec fn wf(self) -> bool {
        self.stroke_width.wf()
    }

    /// A brush with every property given.
    pub fn init(
        name: String,
        color: (u8, u8, u8),
        ignorepressure: bool,
        transparency: u8,
        stroke_width: Decimal,
    ) -> (r: Brush)
        ensures
            r == (Brush { name, color, stroke_width, ignorepressure, transparency }),
    {
        Brush { name, color, stroke_width, transparency, ignorepressure }
    }

    /// The starting brush of a `<brush>` element: black, width 0, opaque, pressure-respecting.
    pub fn init_brush_with_id(id: &str) -> (r: Brush)
        ensures
            r.name@ == id@,
            r.color == (0u8, 0u8, 0u8),
            r.stroke_width == (Decimal { mantissa: 0, scale: 0 }),
            r.transparency == 0,
            !r.ignorepressure,
    {
        Brush {
            name: id.to_owned(),
            color: (0, 0, 0),
            stroke_width: Decimal { mantissa: 0, scale: 0 },
            transparency: 0,
            ignorepressure: false,
        }
    }

    /// The same brush under the id `name`.
    pub fn renamed(&self, name: String) -> (r: Brush)
        ensures
            r == (Brush { name, ..*self }),
    {
        Brush {
            name,
            color: self.color,
            stroke_width: self.stroke_width,
            ignorepressure: self.ignorepressure,
            transparency: self.transparency,
        }
    }

    /// A copy of the brush.
    pub fn copy(&self) -> (r: Brush)
        ensures
            r.name@ == self.name@,
            r.color == self.color,
            r.stroke_width == self.stroke_width,
            r.ignorepressure == self.ignorepressure,
            r.transparency == self.transparency,
    {
        self.renamed(self.name.clone())
    }
}

/// Strips trailing zero digits from a magnitude `a` with `s` fraction digits.
pub open spec fn strip_zeros(a: nat, s: nat) -> (nat, nat)
    decreases s,
{
    if s > 0 && a % 10 == 0 {
        strip_zeros(a / 10, (s - 1) as nat)
    } else {
        (a, s)
    }
}

/// The shortest writing of a decimal: equal numbers get equal writings.
pub open spec fn normalized(d: Decimal) -> Decimal {
    let a: nat = if d.mantissa < 0 {
        (-d.mantissa) as nat
    } else {
        d.mantissa as nat
    };
    let (b, s) = strip_zeros(a, d.scale as nat);
    Decimal {
        mantissa: (if d.mantissa < 0 {
            -b
        } else {
            b as int
        }) as i64,
        scale: s as u32,
    }
}

pub proof fn lemma_strip_bounds(a: nat, s: nat)
    ensures
        strip_zeros(a, s).0 <= a,
        strip_zeros(a, s).1 <= s,
    decreases s,
{
    if s > 0 && a % 10 == 0 {
        lemma_strip_bounds(a / 10, (s - 1) as nat);
    }
}

/// A brush width with an equality that holds exactly when the widths are equal numbers.
#[derive(Clone, Copy, Debug, PartialEq, Eq, Structural)]
pub struct PositiveFiniteFloat {
    pub stroke_width: Decimal,
}

impl PositiveFiniteFloat {
    pub open spec fn spec_new(d: Decimal) -> PositiveFiniteFloat {
        PositiveFiniteFloat { stroke_width: normalized(d) }
    }

    /// The width `d`, in its shortest writing.
    pub fn new(d: Decimal) -> (r: PositiveFiniteFloat)
        requires
            d.wf(),
        ensures
            r == Self::spec_new(d),
    {
        let neg = d.mantissa < 0;
        let mut a: i128 = if neg {
            -(d.mantissa as i128)
        } else {
            d.mantissa as i128
        };
        let mut s: u32 = d.scale;
        let ghost a0: nat = a as nat;
        proof {
            lemma_strip_bounds(a0, d.scale as nat);
        }
        while s > 0 && a % 10 == 0
            invariant
                0 <= a <= a0,
                s <= d.scale,
                strip_zeros(a as nat, s as nat) == strip_zeros(a0, d.scale as nat),
            decreases s,
        {
            a = a / 10;
            s = s - 1;
        }
        let m: i64 = if neg {
            (-a) as i64
        } else {
            a as i64
        };
        PositiveFiniteFloat { stroke_width: Decimal { mantissa: m, scale: s } }
    }
}

/// What makes two brushes the same when emitted: color, width, pressure behaviour and
/// transparency.
#[derive(Clone, Copy, Debug, PartialEq, Eq, Structural)]
pub struct BrushKey {
    pub red: u8,
    pub green: u8,
    pub blue: u8,
    pub width: PositiveFiniteFloat,
    pub ignorepressure: bool,
    pub transparency: u8,
}

pub open spec fn key_of(b: BrushView) -> BrushKey {
    BrushKey {
        red: b.color.0,
        green: b.color.1,
        blue: b.color.2,
        width: PositiveFiniteFloat::spec_new(b.stroke_width),
        ignorepressure: b.ignorepressure,
        transparency: b.transparency,
    }
}

fn brush_key(b: &Brush) -> (r: BrushKey)
    requires
        b.wf(),
    ensures
        r == key_of(b@),
{
    BrushKey {
        red: b.color.0,
        green: b.color.1,
        blue: b.color.2,
        width: PositiveFiniteFloat::new(b.stroke_width),
        ignorepressure: b.ignorepressure,
        transparency: b.transparency,
    }
}

/// The id given to the `k`-th distinct brush: `br1`, `br2`, ...
pub open spec fn brush_id(k: nat) -> Seq<char> {
    "br"@ + int_text((k + 1) as int)
}

fn make_brush_id(k: usize) -> (r: String)
    requires
        k < usize::MAX,
    ensures
        r@ == brush_id(k as nat),
{
    let mut cs = chars_of("br");
    let mut digits = chars_of(int_to_text((k + 1) as i128).as_str());
    cs.append(&mut digits);
    string_of(&cs)
}

/// The index of the key `k` among `keys`, if present.
pub open spec fn find_key(keys: Seq<BrushKey>, k: BrushKey) -> Option<int> {
    if exists|i: int| 0 <= i < keys.len() && keys[i] == k {
        Some(choose|i: int| 0 <= i < keys.len() && keys[i] == k)
    } else {
        None
    }
}

/// The content of a `BrushCollection`.
pub struct BrushCollectionView {
    pub brushes: Seq<BrushView>,
    pub keys: Seq<BrushKey>,
    pub mapping: Seq<usize>,
}

impl BrushCollectionView {
    pub open spec fn wf(self) -> bool {
        &&& self.keys.len() == self.brushes.len()
        &&& forall|i: int| 0 <= i < self.brushes.len() ==> #[trigger] self.keys[i] == key_of(self.brushes[i])
        &&& forall|i: int| 0 <= i < self.brushes.len() ==> (#[trigger] self.brushes[i]).wf()
        &&& forall|i: int| 0 <= i < self.brushes.len() ==> (#[trigger] self.brushes[i]).name == brush_id(i as nat)
        &&& forall|i: int, j: int|
            0 <= i < j < self.keys.len() ==> #[trigger] self.keys[i] != #[trigger] self.keys[j]
        &&& forall|i: int| 0 <= i < self.mapping.len() ==> #[trigger] self.mapping[i] < self.brushes.len()
        &&& self.brushes.len() <= self.mapping.len()
    }
}

/// Registering `b`: a brush equal to an earlier one reuses its entry, another gets the
/// next id; either way the entry used is appended to the mapping.
pub open spec fn add_brush_spec(c: BrushCollectionView, b: BrushView) -> BrushCollectionView {
    match find_key(c.keys, key_of(b)) {
        Some(i) => BrushCollectionView { mapping: c.mapping.push(i as usize), ..c },
        None => BrushCollectionView {
            brushes: c.brushes.push(BrushView { name: brush_id(c.brushes.len()), ..b }),
            keys: c.keys.push(key_of(b)),
            mapping: c.mapping.push(c.brushes.len() as usize),
        },
    }
}

/// Registering a well-formed brush keeps the collection well formed.
pub proof fn lemma_add_brush_wf(c: BrushCollectionView, b: BrushView)
    requires
        c.wf(),
        b.wf(),
    ensures
        add_brush_spec(c, b).wf(),
{
    let c2 = add_brush_spec(c, b);
    match find_key(c.keys, key_of(b)) {
        Some(i) => {
            assert(forall|j: int| 0 <= j < c2.mapping.len() ==> #[trigger] c2.mapping[j] < c2.brushes.len()) by {
                assert forall|j: int| 0 <= j < c2.mapping.len() implies #[trigger] c2.mapping[j] < c2.brushes.len() by {
                    if j < c.mapping.len() {
                        assert(c2.mapping[j] == c.mapping[j]);
                    }
                }
            }
        },
        None => {
            let n = c.brushes.len() as int;
            let nb = BrushView { name: brush_id(n as nat), ..b };
            assert(key_of(nb) == key_of(b));
            assert forall|i: int| 0 <= i < c2.brushes.len() implies #[trigger] c2.keys[i] == key_of(c2.brushes[i]) by {
                if i < n {
                    assert(c2.keys[i] == c.keys[i]);
                    assert(c2.brushes[i] == c.brushes[i]);
                }
            }
            assert forall|i: int, j: int| 0 <= i < j < c2.keys.len() implies #[trigger] c2.keys[i] != #[trigger] c2.keys[j] by {
                if j < n {
                    assert(c2.keys[i] == c.keys[i]);
                    assert(c2.keys[j] == c.keys[j]);
                } else {
                    assert(c2.keys[i] == c.keys[i]);
                }
            }
            assert forall|j: int| 0 <= j < c2.mapping.len() implies #[trigger] c2.mapping[j] < c2.brushes.len() by {
                if j < c.mapping.len() {
                    assert(c2.mapping[j] == c.mapping[j]);
                }
            }
            assert forall|i: int| 0 <= i < c2.brushes.len() implies (#[trigger] c2.brushes[i]).wf() by {
                if i < n {
                    assert(c2.brushes[i] == c.brushes[i]);
                }
            }
            assert forall|i: int| 0 <= i < c2.brushes.len() implies (#[trigger] c2.brushes[i]).name == brush_id(i as nat) by {
                if i < n {
                    assert(c2.brushes[i] == c.brushes[i]);
                }
            }
        },
    }
}

/// Registering the same brush twice adds one entry at most, and both registrations map to
/// the single entry that holds the brush's key.
pub proof fn lemma_add_brush_idempotent(c: BrushCollectionView, b: BrushView)
    requires
        c.wf(),
        b.wf(),
        c.mapping.len() + 2 <= usize::MAX,
    ensures
        ({
            let c1 = add_brush_spec(c, b);
            let c2 = add_brush_spec(c1, b);
            let n = c.mapping.len() as int;
            &&& c2.wf()
            &&& c2.brushes == c1.brushes
            &&& c2.mapping.len() == n + 2
            &&& c2.mapping.subrange(0, n) == c.mapping
            &&& c2.mapping[n] == c2.mapping[n + 1]
            &&& key_of(c2.brushes[c2.mapping[n] as int]) == key_of(b)
            &&& forall|i: int|
                0 <= i < c2.brushes.len() && key_of(#[trigger] c2.brushes[i]) == key_of(b) ==> i
                    == c2.mapping[n] as int
        }),
{
    let c1 = add_brush_spec(c, b);
    lemma_add_brush_wf(c, b);
    lemma_add_brush_wf(c1, b);
    let c2 = add_brush_spec(c1, b);
    let n = c.mapping.len() as int;
    let k = key_of(b);
    let idx: int = match find_key(c.keys, k) {
        Some(i) => i,
        None => c.brushes.len() as int,
    };
    assert(0 <= idx <= c.brushes.len());
    assert(c1.keys[idx] == k);
    assert(find_key(c1.keys, k) is Some);
    let j = find_key(c1.keys, k)->Some_0;
    assert(c1.keys[j] == k);
    assert(j == idx) by {
        if j != idx {
            if j < idx {
                assert(c1.keys[j] != c1.keys[idx]);
            } else {
                assert(c1.keys[idx] != c1.keys[j]);
            }
        }
    }
    assert(c2.mapping.subrange(0, n) =~= c.mapping);
    assert(c2.brushes == c1.brushes);
    assert(c2.mapping[n] as int == idx);
    assert(c2.mapping[n + 1] as int == idx);
    assert(c2.keys[idx] == key_of(c2.brushes[idx]));
    assert forall|i: int|
        0 <= i < c2.brushes.len() && key_of(#[trigger] c2.brushes[i]) == k implies i == idx by {
        assert(c2.keys[i] == k);
        if i != idx {
            if i < idx {
                assert(c2.keys[i] != c2.keys[idx]);
            } else {
                assert(c2.keys[idx] != c2.keys[i]);
            }
        }
    }
}

/// The brushes of a batch of strokes, each distinct brush once, and for each stroke the
/// entry its brush maps to.
#[derive(Debug)]
pub struct BrushCollection {
    brushes: Vec<Brush>,
    duplicate_search: Vec<BrushKey>,
    mapping: Vec<usize>,
}

impl View for BrushCollection {
    type V = BrushCollectionView;

    closed spec fn view(&self) -> BrushCollectionView {
        BrushCollectionView {
            brushes: self.brushes@.map_values(|b: Brush| b@),
            keys: self.duplicate_search@,
            mapping: self.mapping@,
        }
    }
}

impl BrushCollection {
    /// An empty collection.
    pub fn new() -> (r: BrushCollection)
        ensures
            r@.brushes.len() == 0,
            r@.mapping.len() == 0,
            r@.wf(),
    {
        let r = BrushCollection { brushes: Vec::new(), duplicate_search: Vec::new(), mapping: Vec::new() };
        assert(r@.brushes.len() == 0);
        r
    }

    /// Registers the brush of one stroke.
    pub fn add_brush(&mut self, brush: &Brush)
        requires
            old(self)@.wf(),
            brush@.wf(),
            old(self)@.mapping.len() < usize::MAX,
        ensures
            final(self)@ == add_brush_spec(old(self)@, brush@),
            final(self)@.wf(),
    {
        proof {
            lemma_add_brush_wf(self@, brush@);
        }
        let key = brush_key(brush);
        let n = self.duplicate_search.len();
        let mut i: usize = 0;
        while i < n
            invariant
                i <= n == self.duplicate_search@.len(),
                self@ == old(self)@,
                self@.wf(),
                key == key_of(brush@),
                forall|j: int| 0 <= j < i ==> self.duplicate_search@[j] != key,
            decreases n - i,
        {
            if self.duplicate_search[i] == key {
                let ghost keys = self.duplicate_search@;
                assert(keys[i as int] == key);
                let ghost c = find_key(keys, key)->Some_0;
                assert(c == i as int) by {
                    if c != i as int {
                        if c < i {
                        } else {
                            assert(keys[i as int] != keys[c]);
                        }
                    }
                }
                assert(find_key(keys, key) == Some(i as int));
                assert(keys == old(self)@.keys);
                self.mapping.push(i);
                assert(self@.mapping =~= old(self)@.mapping.push(i));
                assert(self@.brushes == old(self)@.brushes);
                return;
            }
            i = i + 1;
        }
        let id = make_brush_id(n);
        let nb = brush.renamed(id);
        self.brushes.push(nb);
        self.duplicate_search.push(key);
        self.mapping.push(n);
        assert(self@.brushes =~= old(self)@.brushes.push(BrushView { name: brush_id(n as nat), ..brush@ }));
    }

    /// The distinct brushes, in the order of their ids.
    pub fn brushes(&self) -> (r: Vec<Brush>)
        ensures
            r@.map_values(|b: Brush| b@) == self@.brushes,
    {
        let mut r: Vec<Brush> = Vec::new();
        let mut i: usize = 0;
        while i < self.brushes.len()
            invariant
                i <= self.brushes@.len(),
                r@.len() == i,
                forall|j: int| 0 <= j < i ==> (#[trigger] r@[j])@ == self.brushes@[j]@,
            decreases self.brushes@.len() - i,
        {
            r.push(self.brushes[i].copy());
            i = i + 1;
        }
        assert(r@.map_values(|b: Brush| b@) =~= self@.brushes);
        r
    }

    /// For each registered stroke, the id of the entry its brush maps to.
    pub fn mapping(&self) -> (r: Vec<String>)
        requires
            self@.wf(),
        ensures
            r@.len() == self@.mapping.len(),
            forall|i: int| 0 <= i < r@.len() ==> (#[trigger] r@[i])@ == brush_id(
                self@.mapping[i] as nat,
            ),
    {
        let mut r: Vec<String> = Vec::new();
        let mut i: usize = 0;
        while i < self.mapping.len()
            invariant
                self@.wf(),
                i <= self.mapping@.len(),
                r@.len() == i,
                forall|j: int| 0 <= j < i ==> (#[trigger] r@[j])@ == brush_id(self@.mapping[j] as nat),
            decreases self.mapping@.len() - i,
        {
            let k = self.mapping[i];
            assert(self@.mapping[i as int] < self@.brushes.len());
            assert(self@.brushes[k as int].name == brush_id(k as nat));
            r.push(self.brushes[k].name.clone());
            i = i + 1;
        }
        r
    }
}

} // verus!
