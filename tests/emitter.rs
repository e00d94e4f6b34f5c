use inkml::brushes::{Brush, BrushCollection};
use inkml::number::{Decimal, Rational};
use inkml::parser::parse_formatted;
use inkml::trace_data::FormattedStroke;
use inkml::writer::writer;

fn r(num: i128, den: i128) -> Rational {
    Rational { num, den }
}

fn stroke(x: Vec<Rational>, y: Vec<Rational>, f: Vec<Rational>) -> FormattedStroke {
    FormattedStroke { x, y, f }
}

fn brush(name: &str, color: (u8, u8, u8), width: Decimal) -> Brush {
    Brush::init(name.to_string(), color, false, 0, width)
}

fn count(hay: &str, needle: &str) -> usize {
    hay.matches(needle).count()
}

#[test]
fn equal_brushes_are_written_once() {
    let w = Decimal { mantissa: 5, scale: 1 };
    let data = vec![
        (stroke(vec![r(1, 1)], vec![r(2, 1)], vec![r(1, 2)]), brush("a", (1, 2, 3), w)),
        (
            stroke(vec![r(3, 1)], vec![r(4, 1)], vec![r(1, 1)]),
            brush("b", (1, 2, 3), Decimal { mantissa: 50, scale: 2 }),
        ),
    ];
    let out = String::from_utf8(writer(data).unwrap()).unwrap();
    assert_eq!(count(&out, "<brush "), 1);
    assert_eq!(count(&out, "<trace "), 2);
    assert_eq!(count(&out, "brushRef=\"#br1\""), 2);
    assert!(out.starts_with("<ink xmlns=\"http://www.w3.org/2003/InkML\">"));
    assert!(out.contains(">1000 2000 16384</trace>"));
    assert!(out.contains("value=\"5\""));
    assert!(out.contains("value=\"#010203\""));
}

#[test]
fn different_brushes_get_their_own_ids() {
    let w = Decimal { mantissa: 1, scale: 1 };
    let data = vec![
        (stroke(vec![r(0, 1)], vec![r(0, 1)], vec![r(0, 1)]), brush("a", (0, 0, 0), w)),
        (stroke(vec![r(0, 1)], vec![r(0, 1)], vec![r(0, 1)]), brush("b", (9, 9, 9), w)),
    ];
    let out = String::from_utf8(writer(data).unwrap()).unwrap();
    assert_eq!(count(&out, "<brush "), 2);
    assert!(out.contains("brushRef=\"#br2\""));
}

#[test]
fn two_emissions_are_identical() {
    let make = || {
        vec![(
            stroke(vec![r(1, 3), r(2, 3)], vec![r(5, 7), r(-5, 7)], vec![r(1, 1), r(0, 1)]),
            Brush::init("x".to_string(), (200, 100, 50), true, 30, Decimal { mantissa: 25, scale: 2 }),
        )]
    };
    assert_eq!(writer(make()).unwrap(), writer(make()).unwrap());
}

#[test]
fn samples_are_rounded_and_joined() {
    let data = vec![(
        stroke(
            vec![r(12345, 10000), r(-1, 4000)],
            vec![r(1, 2000), r(0, 1)],
            vec![r(1, 2), r(1, 1)],
        ),
        brush("a", (0, 0, 0), Decimal { mantissa: 1, scale: 0 }),
    )];
    let out = String::from_utf8(writer(data).unwrap()).unwrap();
    assert!(out.contains(">1235 1 16384,0 0 32767</trace>"), "{}", out);
    assert!(out.contains("value=\"10\""));
}

#[test]
fn emitted_document_reads_back() {
    let xs = vec![r(1, 3), r(25, 10), r(-7, 8)];
    let ys = vec![r(2, 1), r(1, 7), r(0, 1)];
    let fs = vec![r(1, 2), r(1, 4), r(1, 1)];
    let data = vec![(
        stroke(xs.clone(), ys.clone(), fs.clone()),
        Brush::init("a".to_string(), (10, 20, 30), false, 0, Decimal { mantissa: 3, scale: 1 }),
    )];
    let bytes = writer(data).unwrap();
    let back = parse_formatted(&bytes).unwrap();
    assert_eq!(back.len(), 1);
    let (s, b) = &back[0];
    let val = |q: &Rational| q.num as f64 / q.den as f64;
    for (a, e) in s.x.iter().zip(&xs) {
        assert!((val(a) - val(e)).abs() <= 1e-3);
    }
    for (a, e) in s.y.iter().zip(&ys) {
        assert!((val(a) - val(e)).abs() <= 1e-3);
    }
    for (a, e) in s.f.iter().zip(&fs) {
        assert!((val(a) - val(e)).abs() <= 1e-4);
    }
    assert_eq!(b.color, (10, 20, 30));
    assert_eq!(b.stroke_width, Decimal { mantissa: 3, scale: 0 });
}

#[test]
fn collection_maps_repeated_brushes_to_one_entry() {
    let mut col = BrushCollection::new();
    let b = brush("z", (4, 5, 6), Decimal { mantissa: 2, scale: 0 });
    col.add_brush(&b);
    col.add_brush(&b);
    let brushes = col.brushes();
    assert_eq!(brushes.len(), 1);
    assert_eq!(brushes[0].name, "br1");
    assert_eq!(col.mapping(), vec!["br1".to_string(), "br1".to_string()]);
}
