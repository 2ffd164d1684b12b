use verilog_macro_builder::ports::{
    build_verilated_struct, interface_type_for, plan_port, wdata_word_count, BuildError,
    InterfaceType, PortDeclaration, PortDirection, PortErrorKind,
};

fn port(name: &str, direction: PortDirection, lsb: usize, width: usize) -> PortDeclaration {
    PortDeclaration { name: name.to_string(), direction, lsb, width }
}

#[test]
fn interface_types_by_width() {
    let cases = [
        (1, InterfaceType::CData),
        (8, InterfaceType::CData),
        (9, InterfaceType::SData),
        (16, InterfaceType::SData),
        (17, InterfaceType::IData),
        (32, InterfaceType::IData),
        (33, InterfaceType::QData),
        (64, InterfaceType::QData),
    ];
    for (width, expected) in cases {
        for d in [PortDirection::Input, PortDirection::Output, PortDirection::Inout] {
            assert_eq!(interface_type_for(width, d), Some(expected));
        }
    }
    assert_eq!(interface_type_for(65, PortDirection::Input), Some(InterfaceType::WDataInP));
    assert_eq!(interface_type_for(65, PortDirection::Output), Some(InterfaceType::WDataOutP));
    assert_eq!(interface_type_for(65, PortDirection::Inout), None);
}

#[test]
fn word_counts() {
    assert_eq!(wdata_word_count(0), 0);
    assert_eq!(wdata_word_count(1), 1);
    assert_eq!(wdata_word_count(32), 1);
    assert_eq!(wdata_word_count(33), 2);
    assert_eq!(wdata_word_count(65), 3);
    assert_eq!(wdata_word_count(96), 3);
    assert_eq!(wdata_word_count(97), 4);
    assert_eq!(wdata_word_count(usize::MAX), usize::MAX / 32 + 1);
}

#[test]
fn narrow_input_plan() {
    let plan = plan_port(&port("medium_input", PortDirection::Input, 0, 32)).unwrap();
    assert_eq!(plan.msb, 31);
    assert_eq!(plan.interface_type, InterfaceType::IData);
    assert_eq!(plan.wide_words, None);
    assert_eq!(plan.documentation, "Corresponds to Verilog `input medium_input[31:0]`.");
    assert_eq!(plan.accessor, "pin_medium_input");
}

#[test]
fn wide_output_plan() {
    let plan = plan_port(&port("bus", PortDirection::Output, 4, 100)).unwrap();
    assert_eq!(plan.msb, 103);
    assert_eq!(plan.interface_type, InterfaceType::WDataOutP);
    assert_eq!(plan.wide_words, Some(4));
    assert_eq!(plan.documentation, "Corresponds to Verilog `output bus[103:4]`.");
    assert_eq!(plan.accessor, "read_bus");
}

#[test]
fn refused_ports() {
    assert_eq!(plan_port(&port("a b", PortDirection::Input, 0, 1)), Err(PortErrorKind::EscapedName));
    assert_eq!(plan_port(&port("\\weird", PortDirection::Output, 0, 1)), Err(PortErrorKind::EscapedName));
    assert_eq!(plan_port(&port("io", PortDirection::Inout, 0, 8)), Err(PortErrorKind::UnsupportedInout { wide: false }));
    assert_eq!(plan_port(&port("io", PortDirection::Inout, 0, 65)), Err(PortErrorKind::UnsupportedInout { wide: true }));
    assert_eq!(plan_port(&port("z", PortDirection::Input, 0, 0)), Err(PortErrorKind::MsbOverflow));
    assert_eq!(plan_port(&port("z", PortDirection::Input, usize::MAX, 1)), Err(PortErrorKind::MsbOverflow));
    // The width is checked before the name.
    assert_eq!(plan_port(&port("a b", PortDirection::Inout, 0, 0)), Err(PortErrorKind::MsbOverflow));
}

#[test]
fn zero_width_above_bit_zero() {
    let plan = plan_port(&port("e", PortDirection::Input, 3, 0)).unwrap();
    assert_eq!(plan.msb, 2);
    assert_eq!(plan.documentation, "Corresponds to Verilog `input e[2:3]`.");
}

#[test]
fn one_plan_per_port_in_order() {
    let ports = vec![
        port("clk", PortDirection::Input, 0, 1),
        port("out", PortDirection::Output, 0, 64),
        port("wide", PortDirection::Input, 0, 128),
    ];
    let plans = build_verilated_struct(&ports).unwrap();
    assert_eq!(plans.len(), 3);
    let names: Vec<&str> = plans.iter().map(|p| p.name.as_str()).collect();
    assert_eq!(names, ["clk", "out", "wide"]);
    assert_eq!(plans[1].accessor, "read_out");
    assert_eq!(plans[2].wide_words, Some(4));
    assert_eq!(build_verilated_struct(&vec![]).unwrap(), vec![]);
}

#[test]
fn first_refused_port_wins() {
    let ports = vec![
        port("ok", PortDirection::Input, 0, 1),
        port("bad name", PortDirection::Input, 0, 1),
        port("io", PortDirection::Inout, 0, 1),
    ];
    assert_eq!(build_verilated_struct(&ports), Err(BuildError { port: 1, kind: PortErrorKind::EscapedName }));
    let ports = vec![port("io", PortDirection::Inout, 0, 1), port("bad name", PortDirection::Input, 0, 1)];
    assert_eq!(build_verilated_struct(&ports), Err(BuildError { port: 0, kind: PortErrorKind::UnsupportedInout { wide: false } }));
}

#[test]
fn names_must_make_identifiers() {
    for name in ["a$b", "1x", "123", "a-b", "", "r#self", "r#_", "r#", "x.y"] {
        assert_eq!(plan_port(&port(name, PortDirection::Input, 0, 1)), Err(PortErrorKind::NotAnIdentifier), "{name:?}");
    }
    // A raw name makes a field, but not an accessor.
    assert_eq!(plan_port(&port("r#type", PortDirection::Output, 0, 1)), Err(PortErrorKind::NotAnIdentifier));
    for name in ["_", "x1", "type", "\u{e9}t\u{e9}", "_0"] {
        let plan = plan_port(&port(name, PortDirection::Input, 0, 1)).unwrap();
        assert_eq!(plan.accessor, format!("pin_{}", name));
    }
}

#[test]
fn identifier_check_comes_between_the_inout_checks() {
    assert_eq!(plan_port(&port("a$b", PortDirection::Inout, 0, 65)), Err(PortErrorKind::UnsupportedInout { wide: true }));
    assert_eq!(plan_port(&port("a$b", PortDirection::Inout, 0, 8)), Err(PortErrorKind::NotAnIdentifier));
    assert_eq!(plan_port(&port("a b$", PortDirection::Input, 0, 8)), Err(PortErrorKind::EscapedName));
}
