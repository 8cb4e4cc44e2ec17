use openrouting::dsn::{parse_dsn, DsnDesign, PinOffsets, Side};
use openrouting::heap::MinHeap;
use openrouting::number::number_from_text;
use openrouting::router::{can_route, route, route_after, route_single_pass};
use openrouting::text::{is_whitespace, push_decimal, str_eq};

fn pin_offsets(design: &DsnDesign) -> PinOffsets {
    let mut offsets = Vec::new();
    for comp in &design.components {
        let image = design.images.iter().find(|i| i.name == comp.image_name);
        let mut per_place = Vec::new();
        for place in &comp.places {
            let mut per_pin = Vec::new();
            if let Some(image) = image {
                let comp_rot = place.rotation.parse::<f64>().unwrap_or(0.0).to_radians();
                for pin in &image.pins {
                    let pin_rot = pin.rotation.parse::<f64>().unwrap_or(0.0).to_radians();
                    let rx = pin.x as f64 * pin_rot.cos() - pin.y as f64 * pin_rot.sin();
                    let ry = pin.x as f64 * pin_rot.sin() + pin.y as f64 * pin_rot.cos();
                    let fx = rx * comp_rot.cos() - ry * comp_rot.sin();
                    let fy = rx * comp_rot.sin() + ry * comp_rot.cos();
                    let fx = if place.side == Side::Back { -fx } else { fx };
                    per_pin.push((fx as i64, fy as i64));
                }
            }
            per_place.push(per_pin);
        }
        offsets.push(per_place);
    }
    PinOffsets { offsets }
}

const TWO_PADS: &str = r#"
(pcb "two"
  (structure
    (layer "F.Cu" (type signal))
    (layer "B.Cu" (type signal))
    (boundary (rect pcb 0 0 20000 20000))
    (rule (width 250) (clearance 200))
  )
  (library
    (padstack "SMD" (shape (circle "F.Cu" 600)))
    (image "R" (pin "SMD" "1" -1000 0) (pin "SMD" "2" 1000 0))
  )
  (placement (component "R" (place "R1" 5000 10000 front 0) (place "R2" 15000 10000 front 0)))
  (network (net "A" (pins R1-2 R2-1)) (net "ONE" (pins R1-1)))
)
"#;

#[test]
fn numbers_follow_float_syntax_and_truncate() {
    assert_eq!(number_from_text("42"), 42);
    assert_eq!(number_from_text("-7.9"), -7);
    assert_eq!(number_from_text("1e3"), 1000);
    assert_eq!(number_from_text("2.5e-1"), 0);
    assert_eq!(number_from_text("+12.0"), 12);
    assert_eq!(number_from_text(".5"), 0);
    assert_eq!(number_from_text("inf"), i64::MAX);
    assert_eq!(number_from_text("-Infinity"), i64::MIN);
    assert_eq!(number_from_text("NaN"), 0);
    assert_eq!(number_from_text("1e30"), i64::MAX);
    assert_eq!(number_from_text("abc"), 0);
    assert_eq!(number_from_text(""), 0);
    assert_eq!(number_from_text("12x"), 0);
}

#[test]
fn heap_pops_least_first() {
    let mut h = MinHeap::new();
    assert!(h.is_empty());
    for k in [50u128, 7, 300, 7, 1, 99] {
        h.push(k);
    }
    let mut out = Vec::new();
    while let Some(k) = h.pop() {
        out.push(k);
    }
    assert_eq!(out, vec![1, 7, 7, 50, 99, 300]);
    h.push(3);
    h.clear();
    assert!(h.pop().is_none());
}

#[test]
fn text_helpers() {
    assert!(is_whitespace(' '));
    assert!(is_whitespace('\u{2003}'));
    assert!(!is_whitespace('x'));
    assert!(str_eq("abc", "abc"));
    assert!(!str_eq("abc", "abd"));
    let mut v = Vec::new();
    push_decimal(&mut v, -120);
    push_decimal(&mut v, 0);
    push_decimal(&mut v, i64::MIN);
    let s: String = v.into_iter().collect();
    assert_eq!(s, "-1200-9223372036854775808");
}

#[test]
fn can_route_accepts_ordinary_designs() {
    let design = parse_dsn(TWO_PADS).unwrap();
    assert!(can_route(&design, &pin_offsets(&design)));
}

#[test]
fn can_route_refuses_what_the_router_cannot_take() {
    let design = parse_dsn(TWO_PADS).unwrap();
    // Offsets that do not match the pins.
    assert!(!can_route(&design, &PinOffsets { offsets: vec![] }));
    // A coordinate beyond the router's range.
    let far = TWO_PADS.replace("15000 10000", "100000000000 10000");
    let design = parse_dsn(&far).unwrap();
    assert!(!can_route(&design, &pin_offsets(&design)));
}

#[test]
fn fine_rules_on_a_wide_board_grow_the_grid_and_route() {
    // The grid starts at one unit per cell; the board is 20000 wide, so the
    // cell size grows until the board fits 1500 cells.
    let fine = TWO_PADS.replace("(width 250) (clearance 200)", "(width 1) (clearance 1)");
    let design = parse_dsn(&fine).unwrap();
    let offsets = pin_offsets(&design);
    assert!(can_route(&design, &offsets));
    let r = route_single_pass(&design, &offsets, &Vec::new());
    assert!(r.unrouted.is_empty());
    assert!(!r.wires.is_empty());
}

#[test]
fn single_pin_nets_are_skipped() {
    let design = parse_dsn(TWO_PADS).unwrap();
    let offsets = pin_offsets(&design);
    let r = route_single_pass(&design, &offsets, &Vec::new());
    assert!(r.unrouted.is_empty());
    assert!(!r.wires.is_empty());
    for w in &r.wires {
        assert_eq!(w.net_name, "A");
        assert_eq!(w.width, 250);
        assert!(w.points.len() >= 2);
        assert!(w.layer == "F.Cu" || w.layer == "B.Cu");
    }
    for v in &r.vias {
        assert_eq!(v.padstack_name, "via");
    }
}

#[test]
fn nets_whose_pads_cannot_be_found_are_unrouted() {
    let text = TWO_PADS.replace("(pins R1-2 R2-1)", "(pins R1-2 R9-1)");
    let design = parse_dsn(&text).unwrap();
    let offsets = pin_offsets(&design);
    let r = route(&design, &offsets);
    assert_eq!(r.unrouted, vec!["A".to_string()]);
    assert!(r.wires.is_empty());
    assert!(r.vias.is_empty());
}

#[test]
fn a_narrow_width_is_raised_to_one() {
    let text = TWO_PADS.replace("(width 250)", "(width 0)");
    let design = parse_dsn(&text).unwrap();
    let offsets = pin_offsets(&design);
    assert!(can_route(&design, &offsets));
    let r = route_single_pass(&design, &offsets, &Vec::new());
    for w in &r.wires {
        assert_eq!(w.width, 1);
    }
}

#[test]
fn routed_points_lie_in_routing_grid() {
    // Board box: the outline (no pad lies outside it) widened by twice the
    // clearance, from (-400, -400); cell size (250 + 1) / 2 = 125; 20800 /
    // 125 rounds up to 167 cells, plus one: 168 cells of 125 across and down.
    let design = parse_dsn(TWO_PADS).unwrap();
    let offsets = pin_offsets(&design);
    let result = route(&design, &offsets);
    assert!(!result.wires.is_empty());
    let lo = -400;
    let hi = -400 + 168 * 125;
    for w in &result.wires {
        for &(x, y) in &w.points {
            assert!(lo <= x && x < hi, "x {} outside [{}, {})", x, lo, hi);
            assert!(lo <= y && y < hi, "y {} outside [{}, {})", y, lo, hi);
        }
    }
    for v in &result.vias {
        assert!(lo <= v.x && v.x < hi && lo <= v.y && v.y < hi);
    }
}

#[test]
fn single_pin_net_is_left_alone() {
    let design = parse_dsn(TWO_PADS).unwrap();
    let offsets = pin_offsets(&design);
    let result = route(&design, &offsets);
    assert!(result.wires.iter().all(|w| w.net_name != "ONE"));
    assert!(result.vias.iter().all(|v| v.net_name != "ONE"));
    assert!(result.unrouted.iter().all(|u| u != "ONE"));
    assert!(result.wires.iter().any(|w| w.net_name == "A"));
}

const MISSING_PADS: &str = r#"
(pcb "missing"
  (structure
    (layer "F.Cu" (type signal))
    (boundary (rect pcb 0 0 20000 20000))
    (rule (width 250) (clearance 200))
  )
  (library
    (padstack "SMD" (shape (circle "F.Cu" 600)))
    (image "R" (pin "SMD" "1" -1000 0) (pin "SMD" "2" 1000 0))
  )
  (placement (component "R" (place "R1" 5000 10000 front 0)))
  (network
    (net "B" (pins X1-1 X2-1))
    (net "A" (pins X3-1 X4-1 X5-1))
    (net "C" (pins X6-1 X7-1))
  )
)
"#;

#[test]
fn unrouted_nets_come_in_routing_order() {
    let design = parse_dsn(MISSING_PADS).unwrap();
    let offsets = pin_offsets(&design);
    let plain = route_single_pass(&design, &offsets, &vec![]);
    assert_eq!(plain.unrouted, vec!["A".to_string(), "B".to_string(), "C".to_string()]);
    let led = route_single_pass(&design, &offsets, &vec!["C".to_string(), "B".to_string()]);
    assert_eq!(led.unrouted, vec!["C".to_string(), "B".to_string(), "A".to_string()]);
    assert!(led.wires.is_empty() && led.vias.is_empty());
}

#[test]
fn nets_without_findable_pads_get_no_wires_and_come_in_order() {
    let design = parse_dsn(
        "(pcb d (structure (layer F.Cu)) (network (net A (pins X-1 X-2)) (net B (pins X-1 X-2 X-3))))",
    )
    .unwrap();
    let offsets = pin_offsets(&design);
    let r = route_single_pass(&design, &offsets, &vec![]);
    assert!(r.wires.is_empty() && r.vias.is_empty());
    assert_eq!(r.unrouted, vec!["B".to_string(), "A".to_string()]);
    let r = route_single_pass(&design, &offsets, &vec!["A".to_string()]);
    assert!(r.wires.is_empty() && r.vias.is_empty());
    assert_eq!(r.unrouted, vec!["A".to_string(), "B".to_string()]);
}

#[test]
fn route_after_keeps_a_first_pass_that_routes_everything() {
    let design = parse_dsn(TWO_PADS).unwrap();
    let offsets = pin_offsets(&design);
    let first = route_single_pass(&design, &offsets, &vec![]);
    assert!(first.unrouted.is_empty());
    let wires = first.wires.len();
    let r = route_after(&design, &offsets, first);
    assert!(r.unrouted.is_empty());
    assert_eq!(r.wires.len(), wires);
}

#[test]
fn routed_net_wires_run_from_its_first_pad_to_its_other_pad() {
    // Net A joins R1-2 at (6000, 10000) and R2-1 at (14000, 10000). The grid
    // starts at (-400, -400) with cells of 125; a path reaches a pad once it
    // comes within the clearance in cells (1) plus half the width in cells
    // (1) of the pad's cell.
    let design = parse_dsn(TWO_PADS).unwrap();
    let offsets = pin_offsets(&design);
    let r = route_single_pass(&design, &offsets, &vec![]);
    assert!(r.unrouted.is_empty());
    let wires: Vec<_> = r.wires.iter().filter(|w| w.net_name == "A").collect();
    assert!(!wires.is_empty());
    let cell = |v: i64| (v + 400) / 125;
    let centre = |c: i64| -400 + c * 125 + 62;
    assert_eq!(wires[0].points[0], (centre(cell(6000)), centre(cell(10000))));
    let last = *wires[wires.len() - 1].points.last().unwrap();
    assert!((cell(last.0) - cell(14000)).abs() <= 2);
    assert!((cell(last.1) - cell(10000)).abs() <= 2);
    for k in 1..wires.len() {
        assert_eq!(*wires[k - 1].points.last().unwrap(), wires[k].points[0]);
    }
}

const FAR_APART: &str = r#"
(pcb "far"
  (structure
    (layer "F.Cu" (type signal))
    (layer "B.Cu" (type signal))
    (boundary (rect pcb 0 0 40000000000 20000))
    (rule (width 250) (clearance 200))
  )
  (library
    (padstack "SMD" (shape (circle "F.Cu" 600)))
    (image "P" (pin "SMD" "1" 0 0))
  )
  (placement (component "P" (place "P1" 1000000000 10000 front 0) (place "P2" 30000000000 10000 front 0)))
  (network (net "A" (pins P1-1 P2-1)))
)
"#;

#[test]
fn a_board_tens_of_billions_wide_routes() {
    let design = parse_dsn(FAR_APART).unwrap();
    let offsets = pin_offsets(&design);
    assert!(can_route(&design, &offsets));
    let r = route(&design, &offsets);
    assert!(r.unrouted.is_empty());
    assert!(!r.wires.is_empty());
    assert!(r.wires.iter().all(|w| w.net_name == "A" && w.points.len() >= 2));
}
