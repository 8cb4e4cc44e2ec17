use openrouting::dsn::{get_pad_position, parse_dsn, parse_pin_ref, DsnDesign, PinOffsets, Side};

/// Where each pin lies relative to its placement: the pin's rotation, then
/// the placement's, then the mirror in x on the back side.
fn pin_offsets(design: &DsnDesign) -> PinOffsets {
    let mut offsets = Vec::new();
    for comp in &design.components {
        let image = design.images.iter().find(|i| i.name == comp.image_name);
        let mut per_place = Vec::new();
        for place in &comp.places {
            let mut per_pin = Vec::new();
            if let Some(image) = image {
                let comp_rot = place.rotation.parse::<f64>().unwrap_or(0.0).to_radians();
                for pin in &image.pins {
                    let pin_rot = pin.rotation.parse::<f64>().unwrap_or(0.0).to_radians();
                    let rx = pin.x as f64 * pin_rot.cos() - pin.y as f64 * pin_rot.sin();
                    let ry = pin.x as f64 * pin_rot.sin() + pin.y as f64 * pin_rot.cos();
                    let fx = rx * comp_rot.cos() - ry * comp_rot.sin();
                    let fy = rx * comp_rot.sin() + ry * comp_rot.cos();
                    let fx = if place.side == Side::Back { -fx } else { fx };
                    per_pin.push((fx as i64, fy as i64));
                }
            }
            per_place.push(per_pin);
        }
        offsets.push(per_place);
    }
    PinOffsets { offsets }
}

const SIMPLE_DSN: &str = r#"
(pcb "test"
  (resolution um 10)
  (structure
    (layer "F.Cu" (type signal))
    (layer "B.Cu" (type signal))
    (boundary (rect pcb 0 0 100000 100000))
    (rule (width 250) (clearance 200))
  )
  (library
    (padstack "via"
      (shape (circle "*.Cu" 600))
    )
    (image "R"
      (pin "via" "1" -500 0)
      (pin "via" "2" 500 0)
    )
  )
  (placement
    (component "R"
      (place "R1" 10000 50000 front 0)
      (place "R2" 90000 50000 front 0)
    )
  )
  (network
    (net "NET1"
      (pins R1-1 R2-2)
    )
  )
  (wiring)
)
"#;

#[test]
fn test_parse_simple() {
    let design = parse_dsn(SIMPLE_DSN).unwrap();
    assert_eq!(design.name, "test");
    assert_eq!(design.layers.len(), 2);
    assert_eq!(design.nets.len(), 1);
    assert_eq!(design.nets[0].pins.len(), 2);
}

#[test]
fn test_pad_position() {
    let design = parse_dsn(SIMPLE_DSN).unwrap();
    let offsets = pin_offsets(&design);
    let pos = get_pad_position(&design, &offsets, "R1", "1").unwrap();
    assert_eq!(pos.0, 10000 - 500);
    assert_eq!(pos.1, 50000);
}

#[test]
fn pad_position_layer_and_misses() {
    let design = parse_dsn(SIMPLE_DSN).unwrap();
    let offsets = pin_offsets(&design);
    let pos = get_pad_position(&design, &offsets, "R2", "2").unwrap();
    assert_eq!((pos.0, pos.1, pos.2.as_str()), (90500, 50000, "F.Cu"));
    assert!(get_pad_position(&design, &offsets, "R3", "1").is_none());
    assert!(get_pad_position(&design, &offsets, "R1", "9").is_none());
}

#[test]
fn pad_position_on_the_back_side_with_rotation() {
    let text = r#"
(pcb "b"
  (structure (layer "F.Cu" (type signal)) (layer "B.Cu" (type signal)))
  (library
    (padstack "p" (shape (circle "*.Cu" 600)))
    (image "U" (pin "p" "1" 1000 0) (pin "p" (rotate 90) "2" 0 2000))
  )
  (placement (component "U" (place "U1" 5000 5000 back 90)))
)
"#;
    let design = parse_dsn(text).unwrap();
    assert_eq!(design.components[0].places[0].side, Side::Back);
    assert_eq!(design.components[0].places[0].rotation, "90");
    let offsets = pin_offsets(&design);
    let p1 = get_pad_position(&design, &offsets, "U1", "1").unwrap();
    // (1000, 0) turned by 90 degrees is (0, 1000); the back side mirrors x.
    assert_eq!((p1.0, p1.1), (5000, 6000));
    assert_eq!(p1.2, "B.Cu");
    assert_eq!(design.images[0].pins[1].rotation, "90");
    let p2 = get_pad_position(&design, &offsets, "U1", "2").unwrap();
    assert_eq!((p2.0, p2.1), (5000, 3000));
}

#[test]
fn parse_defaults_without_structure() {
    let design = parse_dsn("(pcb x)").unwrap();
    assert_eq!(design.name, "x");
    // Without a structure there are no layers; an empty structure gives F.Cu and B.Cu.
    assert_eq!(design.layers.len(), 0);
    let design2 = parse_dsn("(pcb x (structure))").unwrap();
    assert_eq!(design2.layers.len(), 2);
    assert_eq!(design2.layers[0].name, "F.Cu");
    assert_eq!(design2.layers[1].name, "B.Cu");
    assert_eq!(design.rules.trace_width, 250);
    assert_eq!(design.rules.clearance, 200);
    assert_eq!(design.resolution.unit, "um");
    assert_eq!(design.resolution.value, 1);
}

#[test]
fn parse_numbers_truncate_toward_zero() {
    let design = parse_dsn("(pcb x (structure (rule (width 12.9) (clearance -3.7))))").unwrap();
    assert_eq!(design.rules.trace_width, 12);
    assert_eq!(design.rules.clearance, -3);
}

#[test]
fn parse_dsn_errors() {
    assert!(parse_dsn("(pcb").is_err());
    assert!(parse_dsn("(foo x)").is_err());
}

#[test]
fn pin_ref_formats() {
    let p = parse_pin_ref("R1-2");
    assert_eq!((p.component.as_str(), p.pin.as_str()), ("R1", "2"));
    let p = parse_pin_ref("\"U3\"-\"A1\"");
    assert_eq!((p.component.as_str(), p.pin.as_str()), ("U3", "A1"));
}

#[test]
fn quoted_component_and_pin_references_read_whole() {
    let d = parse_dsn(r#"(pcb b (network (net N (pins "R1"-"1" "R2"-"2" R3-4 "U1-7"))))"#).unwrap();
    let pins = &d.nets[0].pins;
    assert_eq!(pins.len(), 4);
    assert_eq!((pins[0].component.as_str(), pins[0].pin.as_str()), ("R1", "1"));
    assert_eq!((pins[1].component.as_str(), pins[1].pin.as_str()), ("R2", "2"));
    assert_eq!((pins[2].component.as_str(), pins[2].pin.as_str()), ("R3", "4"));
    assert_eq!((pins[3].component.as_str(), pins[3].pin.as_str()), ("U1", "7"));
}

#[test]
fn boundary_box_holds_its_outline() {
    let design = parse_dsn(
        "(pcb b (structure (boundary (polygon pcb 0 0 500 -200 300 900 100 400 -50))))",
    )
    .unwrap();
    let b = &design.boundary;
    assert_eq!((b.min_x, b.min_y, b.max_x, b.max_y), (-200, -50, 900, 500));
    for p in &b.points {
        assert!(b.min_x <= p.x && p.x <= b.max_x && b.min_y <= p.y && p.y <= b.max_y);
    }
    let design = parse_dsn("(pcb b (structure (boundary (rect pcb 700 900 100 300))))").unwrap();
    let b = &design.boundary;
    assert_eq!((b.min_x, b.min_y, b.max_x, b.max_y), (100, 300, 700, 900));
    assert_eq!(b.points.len(), 4);
}
