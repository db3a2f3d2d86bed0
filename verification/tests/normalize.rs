use dispatch_synth::descriptor::{copy_line, interrupt_lines, InterruptLine, Peripheral};
use dispatch_synth::normalize::{
    is_reserved, normalize, normalize_line, normalize_name, NormalizedInterrupt,
};
use dispatch_synth::strategy::Strategy;

fn line(name: &str, vector_index: u32, description: Option<&str>) -> InterruptLine {
    InterruptLine {
        name: name.to_string(),
        vector_index,
        description: description.map(str::to_string),
    }
}

fn normal(name: &str, vector_index: u32, is_reserved: bool) -> NormalizedInterrupt {
    NormalizedInterrupt { name: name.to_string(), vector_index, description: None, is_reserved }
}

#[test]
fn is_reserved_matches_the_prefix_in_any_case() {
    assert!(is_reserved("RESERVED0"));
    assert!(is_reserved("Reserved1"));
    assert!(is_reserved("reserved"));
    assert!(is_reserved("rEsErVeD_15"));
    assert!(!is_reserved("UART_RX"));
    assert!(!is_reserved("RESERVE"));
    assert!(!is_reserved("UNRESERVED"));
    assert!(!is_reserved(""));
}

#[test]
fn is_reserved_looks_at_the_name_as_given() {
    assert!(!is_reserved(" RESERVED0"));
    assert!(is_reserved("RESERVED0 "));
}

#[test]
fn normalize_name_trims_and_lowers() {
    assert_eq!(normalize_name("UART_RX"), "uart_rx");
    assert_eq!(normalize_name("  Timer0_OVF\t"), "timer0_ovf");
    assert_eq!(normalize_name("int0"), "int0");
    assert_eq!(normalize_name(""), "");
    assert_eq!(normalize_name("  "), "");
    assert_eq!(normalize_name(" ÄDC "), "ädc");
}

#[test]
fn normalize_name_twice_is_normalize_name_once() {
    for name in ["UART_RX", "  Timer0_OVF\t", " a B c ", "", "\n", "RESERVED0", "  ÄDC  "] {
        let once = normalize_name(name);
        assert_eq!(normalize_name(&once), once);
    }
}

#[test]
fn normalize_line_keeps_the_vector_and_tags_reserved_lines() {
    assert_eq!(
        normalize_line(&line(" UART_RX ", 3, Some("  Receive \n   complete  "))),
        NormalizedInterrupt {
            name: "uart_rx".to_string(),
            vector_index: 3,
            description: Some("Receive\ncomplete".to_string()),
            is_reserved: false,
        }
    );
    assert_eq!(normalize_line(&line("Reserved1", 1, None)), normal("reserved1", 1, true));
    assert_eq!(normalize_line(&line(" Reserved1", 7, None)), normal("reserved1", 7, false));
    assert_eq!(
        normalize_line(&line("X", u32::MAX, Some(""))),
        NormalizedInterrupt {
            name: "x".to_string(),
            vector_index: u32::MAX,
            description: Some(String::new()),
            is_reserved: false,
        }
    );
}

#[test]
fn normalize_line_keeps_the_paragraphs_of_a_description() {
    let made = normalize_line(&line("ADC", 21, Some("  Conversion done. \n\n   See the manual.  ")));
    assert_eq!(made.description, Some("Conversion done.\n\nSee the manual.".to_string()));
}

#[test]
fn normalize_drops_reserved_lines_for_the_table_strategies() {
    let lines = vec![line("RESERVED0", 0, None), line("UART_RX", 3, None), line("Reserved1", 1, None)];
    let expected = vec![normal("uart_rx", 3, false)];
    assert_eq!(normalize(&lines, Strategy::DynamicTable), expected);
    assert_eq!(normalize(&lines, Strategy::TypedTable), expected);
}

#[test]
fn normalize_keeps_reserved_lines_for_the_static_strategy() {
    let lines = vec![line("RESERVED0", 0, None), line("UART_RX", 3, None), line("Reserved1", 1, None)];
    assert_eq!(
        normalize(&lines, Strategy::Static),
        vec![normal("reserved0", 0, true), normal("uart_rx", 3, false), normal("reserved1", 1, true)]
    );
}

#[test]
fn normalize_keeps_the_order_of_the_description() {
    let lines = vec![
        line("TIMER1", 9, None),
        line("reserved", 8, None),
        line("ADC", 7, None),
        line("INT0", 1, None),
        line("TIMER0", 12, None),
    ];
    for strategy in [Strategy::DynamicTable, Strategy::TypedTable] {
        let names: Vec<String> = normalize(&lines, strategy).into_iter().map(|n| n.name).collect();
        assert_eq!(names, ["timer1", "adc", "int0", "timer0"]);
    }
    let names: Vec<String> =
        normalize(&lines, Strategy::Static).into_iter().map(|n| n.name).collect();
    assert_eq!(names, ["timer1", "reserved", "adc", "int0", "timer0"]);
}

#[test]
fn normalize_of_nothing_is_nothing() {
    for strategy in [Strategy::DynamicTable, Strategy::TypedTable, Strategy::Static] {
        assert_eq!(normalize(&Vec::new(), strategy), Vec::new());
    }
}

#[test]
fn normalize_does_not_merge_lines_of_one_name_or_vector() {
    let lines = vec![line("Timer", 4, None), line("TIMER", 4, None)];
    assert_eq!(
        normalize(&lines, Strategy::DynamicTable),
        vec![normal("timer", 4, false), normal("timer", 4, false)]
    );
}

#[test]
fn copy_line_copies_every_field() {
    let with = line("UART_RX", 3, Some("Receive complete"));
    assert_eq!(copy_line(&with), with);
    let without = line("", 0, None);
    assert_eq!(copy_line(&without), without);
}

#[test]
fn interrupt_lines_go_peripheral_by_peripheral() {
    let peripherals = vec![
        Peripheral {
            name: "USART0".to_string(),
            interrupts: vec![line("USART_RX", 18, Some("Rx")), line("USART_TX", 20, None)],
        },
        Peripheral { name: "EEPROM".to_string(), interrupts: Vec::new() },
        Peripheral { name: "SPI".to_string(), interrupts: vec![line("SPI_STC", 17, None)] },
    ];
    assert_eq!(
        interrupt_lines(&peripherals),
        vec![line("USART_RX", 18, Some("Rx")), line("USART_TX", 20, None), line("SPI_STC", 17, None)]
    );
    assert_eq!(interrupt_lines(&Vec::new()), Vec::new());
}

fn reserved_in_bytes(name: &str) -> bool {
    name.len() >= 8 && name.as_bytes()[..8].eq_ignore_ascii_case(b"reserved")
}

#[test]
fn is_reserved_is_settled_by_the_first_eight_bytes() {
    let names = [
        "", "reserved", "RESERVED", "ReSeRvEd0", "Reserved_Ä", "reserve", "reserv\u{212a}d",
        "\u{212a}reserved", "reſerved", "rеserved", "ｒｅｓｅｒｖｅｄ", "Reserved\u{212a}", "uart_rx",
        " reserved", "reserved ", "RESERVEDRESERVED", "r", "İreserved",
    ];
    for name in names {
        assert_eq!(is_reserved(name), reserved_in_bytes(name), "for {:?}", name);
    }
}

#[test]
fn is_reserved_takes_no_other_character_for_a_letter_of_the_word() {
    for code in 0u32..=0x10FFFF {
        if let Some(c) = char::from_u32(code) {
            let first = format!("{}eserved", c);
            assert_eq!(is_reserved(&first), reserved_in_bytes(&first), "at U+{:04X}", code);
            let sixth = format!("reser{}ed7", c);
            assert_eq!(is_reserved(&sixth), reserved_in_bytes(&sixth), "at U+{:04X}", code);
        }
    }
}
