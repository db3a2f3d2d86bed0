use dispatch_synth::descriptor::{InterruptLine, Peripheral};
use dispatch_synth::generate::run;
use dispatch_synth::strategy::Strategy;
use dispatch_synth::synthesis::{EntryTarget, InterruptCapability, Slot, VectorEntry};

const DEVICE: &str = r#"<?xml version="1.0" encoding="utf-8"?>
<device schemaVersion="1.1">
  <name>ATmegaDemo</name>
  <peripherals>
    <peripheral>
      <name>CPU</name>
      <baseAddress>0x0</baseAddress>
      <interrupt>
        <name>RESERVED0</name>
        <value>0</value>
      </interrupt>
    </peripheral>
    <peripheral>
      <name>USART0</name>
      <baseAddress>0xC0</baseAddress>
      <interrupt>
        <name>UART_RX</name>
        <description>  USART,
            Rx Complete </description>
        <value>3</value>
      </interrupt>
      <interrupt>
        <name>Reserved1</name>
        <value>1</value>
      </interrupt>
    </peripheral>
  </peripherals>
</device>
"#;

fn peripherals_of(xml: &str) -> Vec<Peripheral> {
    let device = svd_parser::parse(xml).unwrap();
    device
        .peripherals
        .iter()
        .map(|peripheral| Peripheral {
            name: peripheral.name.clone(),
            interrupts: peripheral
                .interrupt
                .iter()
                .map(|interrupt| InterruptLine {
                    name: interrupt.name.clone(),
                    vector_index: interrupt.value,
                    description: interrupt.description.clone(),
                })
                .collect(),
        })
        .collect()
}

#[test]
fn a_parsed_description_gives_its_peripherals_in_order() {
    let peripherals = peripherals_of(DEVICE);
    let names: Vec<&str> = peripherals.iter().map(|peripheral| peripheral.name.as_str()).collect();
    assert_eq!(names, ["CPU", "USART0"]);
    assert_eq!(peripherals[0].interrupts.len(), 1);
    assert_eq!(peripherals[1].interrupts.len(), 2);
    assert_eq!(peripherals[1].interrupts[0].name, "UART_RX");
    assert_eq!(peripherals[1].interrupts[0].vector_index, 3);
}

#[test]
fn a_parsed_description_becomes_a_framework_with_a_table() {
    let made = run(&peripherals_of(DEVICE), Strategy::DynamicTable).unwrap();
    assert_eq!(
        made.contract.interrupts,
        vec![InterruptCapability {
            name: "uart_rx".to_string(),
            vector_index: 3,
            description: Some("USART,\nRx Complete".to_string()),
        }]
    );
    assert_eq!(made.contract.interrupts[0].documentation(), ["USART,", "Rx Complete"]);
    let table = made.table.unwrap();
    assert_eq!(table.slots.len(), 7);
    assert_eq!(table.slots[6], Slot::Interrupt("uart_rx".to_string()));
    assert_eq!(
        made.vectors,
        vec![VectorEntry {
            vector_index: 3,
            target: EntryTarget::ThroughHandle("uart_rx".to_string()),
        }]
    );
}

#[test]
fn a_parsed_description_becomes_a_static_framework() {
    let made = run(&peripherals_of(DEVICE), Strategy::Static).unwrap();
    assert_eq!(made.table, None);
    assert_eq!(
        made.vectors,
        vec![
            VectorEntry { vector_index: 0, target: EntryTarget::Stub },
            VectorEntry { vector_index: 3, target: EntryTarget::Direct("uart_rx".to_string()) },
            VectorEntry { vector_index: 1, target: EntryTarget::Stub },
        ]
    );
}
