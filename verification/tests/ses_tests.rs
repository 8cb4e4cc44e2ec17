use openrouting::dsn::{Boundary, DesignRule, DsnDesign, Layer, Net, Resolution};
use openrouting::router::{RoutedVia, RoutedWire, RoutingResult};
use openrouting::ses::{needs_quotes, quoted, ses_text};
use openrouting::sexp::Sexp;

#[test]
fn test_quoted() {
    assert_eq!(quoted("F.Cu"), "F.Cu");
    assert_eq!(quoted("My Net"), "\"My Net\"");
    assert_eq!(quoted(""), "\"\"");
}

#[test]
fn quoted_escapes_backslashes_and_quotes() {
    assert_eq!(quoted("a\"b"), "\"a\\\"b\"");
    assert_eq!(quoted("a\\b c"), "\"a\\\\b c\"");
    // A backslash alone needs no quotes and is written as it is.
    assert_eq!(quoted("a\\b"), "a\\b");
    assert_eq!(quoted("(x)"), "\"(x)\"");
    assert_eq!(quoted("tab\there"), "\"tab\there\"");
}

#[test]
fn needs_quotes_cases() {
    assert!(needs_quotes(""));
    assert!(needs_quotes("a b"));
    assert!(needs_quotes("a("));
    assert!(needs_quotes("a)"));
    assert!(needs_quotes("\""));
    assert!(needs_quotes("a\u{3000}b"));
    assert!(!needs_quotes("GND"));
    assert!(!needs_quotes("/net-1"));
}

#[test]
fn quoted_token_reads_back() {
    let text = format!("(x {})", quoted("My \"big\" net\\1"));
    let s = Sexp::parse(&text).unwrap();
    assert_eq!(s.as_list().unwrap()[1].as_atom(), Some("My \"big\" net\\1"));
}

fn small_design() -> DsnDesign {
    DsnDesign {
        name: "test".to_string(),
        resolution: Resolution { unit: "um".to_string(), value: 10 },
        unit: "um".to_string(),
        layers: vec![Layer { name: "F.Cu".to_string(), layer_type: "signal".to_string(), index: 0 }],
        boundary: Boundary { points: vec![], min_x: 0, min_y: 0, max_x: 100000, max_y: 100000 },
        rules: DesignRule { trace_width: 250, clearance: 200 },
        components: vec![],
        images: vec![],
        padstacks: vec![],
        nets: vec![
            Net { name: "NET1".to_string(), pins: vec![] },
            Net { name: "EMPTY".to_string(), pins: vec![] },
            Net { name: "My Net".to_string(), pins: vec![] },
        ],
        wiring: vec![],
    }
}

#[test]
fn ses_text_exact() {
    let design = small_design();
    let routing = RoutingResult {
        wires: vec![
            RoutedWire {
                net_name: "NET1".to_string(),
                layer: "F.Cu".to_string(),
                width: 250,
                points: vec![(0, 0), (1000, -20)],
            },
            RoutedWire {
                net_name: "NET1".to_string(),
                layer: "F.Cu".to_string(),
                width: 250,
                points: vec![(5, 5)],
            },
            RoutedWire {
                net_name: "OTHER".to_string(),
                layer: "F.Cu".to_string(),
                width: 250,
                points: vec![(1, 1), (2, 2)],
            },
        ],
        vias: vec![
            RoutedVia { net_name: "My Net".to_string(), padstack_name: "via".to_string(), x: -7, y: 30 },
        ],
        unrouted: vec![],
    };
    let text = ses_text(&design, &routing);
    let expected = "(session test\n  (base_design test.dsn)\n  (routes\n    (resolution um 10)\n    (parser\n      (string_quote \")\n      (space_in_quoted_tokens on)\n      (host_cad \"openrouting\")\n      (host_version \"0.1.0\")\n    )\n    (network_out\n      (net NET1\n        (wire (path F.Cu 250 0 0 1000 -20))\n      )\n      (net \"My Net\"\n        (via via -7 30)\n      )\n    )\n  )\n)\n";
    assert_eq!(text, expected);
}

#[test]
fn ses_text_reparses_as_session() {
    let design = small_design();
    let routing = RoutingResult {
        wires: vec![RoutedWire {
            net_name: "NET1".to_string(),
            layer: "F.Cu".to_string(),
            width: 250,
            points: vec![(0, 0), (1000, 0)],
        }],
        vias: vec![],
        unrouted: vec![],
    };
    let content = ses_text(&design, &routing);
    assert!(content.contains("(session"));
    assert!(content.contains("NET1"));
    assert!(content.contains("F.Cu"));
    let s = Sexp::parse(&content).unwrap();
    assert_eq!(s.name(), Some("session"));
    let open = content.chars().filter(|&c| c == '(').count();
    let close = content.chars().filter(|&c| c == ')').count();
    assert_eq!(open, close);
}

#[test]
fn ses_text_reads_back_names_and_coordinates() {
    let mut design = small_design();
    design.name = "my board".to_string();
    let routing = RoutingResult {
        wires: vec![RoutedWire {
            net_name: "My Net".to_string(),
            layer: "F.Cu".to_string(),
            width: 250,
            points: vec![(0, 0), (1000, -20)],
        }],
        vias: vec![RoutedVia { net_name: "My Net".to_string(), padstack_name: "v 1".to_string(), x: -7, y: 30 }],
        unrouted: vec![],
    };
    let content = ses_text(&design, &routing);
    let s = Sexp::parse(&content).unwrap();
    let top = s.as_list().unwrap();
    assert_eq!(top.len(), 4);
    assert_eq!(top[0].as_atom(), Some("session"));
    assert_eq!(top[1].as_atom(), Some("my board"));
    let base = s.find("base_design").unwrap().as_list().unwrap();
    assert_eq!(base[1].as_atom(), Some("my board.dsn"));
    let network = s.find("routes").unwrap().find("network_out").unwrap().as_list().unwrap();
    assert_eq!(network.len(), 2);
    let net = network[1].as_list().unwrap();
    assert_eq!(net[1].as_atom(), Some("My Net"));
    let path = net[2].find("path").unwrap().as_list().unwrap();
    let atoms: Vec<&str> = path.iter().map(|x| x.as_atom().unwrap()).collect();
    assert_eq!(atoms, vec!["path", "F.Cu", "250", "0", "0", "1000", "-20"]);
    let via = net[3].as_list().unwrap();
    let atoms: Vec<&str> = via.iter().map(|x| x.as_atom().unwrap()).collect();
    assert_eq!(atoms, vec!["via", "v 1", "-7", "30"]);
}
