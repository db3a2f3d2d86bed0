use dispatch_synth::descriptor::{InterruptLine, Peripheral};
use dispatch_synth::generate::run;
use dispatch_synth::normalize::{normalize, NormalizedInterrupt};
use dispatch_synth::strategy::Strategy;
use dispatch_synth::synthesis::{
    associated_types, find_conflict, interrupt_capabilities, runtime_handle, synthesize,
    table_slots, vector_entries, AssociatedType, DispatchTable, EntryTarget, Hook,
    InterruptCapability, RuntimeHandle, Slot, SynthesisError, VectorEntry,
};

const ALL: [Strategy; 3] = [Strategy::DynamicTable, Strategy::TypedTable, Strategy::Static];

fn line(name: &str, vector_index: u32) -> InterruptLine {
    InterruptLine { name: name.to_string(), vector_index, description: None }
}

fn device(lines: Vec<InterruptLine>) -> Vec<Peripheral> {
    vec![Peripheral { name: "CPU".to_string(), interrupts: lines }]
}

fn normal(name: &str, vector_index: u32, is_reserved: bool) -> NormalizedInterrupt {
    NormalizedInterrupt { name: name.to_string(), vector_index, description: None, is_reserved }
}

fn capability(name: &str, vector_index: u32) -> InterruptCapability {
    InterruptCapability { name: name.to_string(), vector_index, description: None }
}

fn hook_slots() -> Vec<Slot> {
    vec![
        Slot::Hook(Hook::Init),
        Slot::Hook(Hook::Snapshot),
        Slot::Hook(Hook::Idle),
        Slot::Hook(Hook::Wake),
        Slot::Hook(Hook::Shutdown),
        Slot::Hook(Hook::IsReady),
    ]
}

fn scenario() -> Vec<InterruptLine> {
    vec![line("RESERVED0", 0), line("UART_RX", 3), line("Reserved1", 1)]
}

#[test]
fn one_interrupt_between_two_reserved_lines_under_the_dynamic_table() {
    let interrupts = normalize(&scenario(), Strategy::DynamicTable);
    assert_eq!(interrupts, vec![normal("uart_rx", 3, false)]);

    let made = synthesize(&interrupts, Strategy::DynamicTable).unwrap();
    assert_eq!(made.strategy, Strategy::DynamicTable);
    assert_eq!(made.contract.interrupts, vec![capability("uart_rx", 3)]);
    assert_eq!(
        made.contract.hooks,
        vec![Hook::Init, Hook::Snapshot, Hook::Idle, Hook::Wake, Hook::Shutdown, Hook::IsReady]
    );
    assert_eq!(made.contract.associated_types, Vec::new());
    assert!(!made.contract.single_implementation);

    let table = made.table.unwrap();
    assert_eq!(table.slots.len(), 7);
    let mut slots = hook_slots();
    slots.push(Slot::Interrupt("uart_rx".to_string()));
    assert_eq!(table, DispatchTable { slots, fixed_layout: false });

    assert_eq!(made.handle, RuntimeHandle::TableReference);
    assert_eq!(
        made.vectors,
        vec![VectorEntry {
            vector_index: 3,
            target: EntryTarget::ThroughHandle("uart_rx".to_string()),
        }]
    );
}

#[test]
fn two_spellings_of_one_name_are_a_conflict() {
    let lines = vec![line("Timer", 5), line("TIMER", 9)];
    let expected = SynthesisError::NameConflict {
        name: "timer".to_string(),
        first_vector: 5,
        second_vector: 9,
    };
    for strategy in ALL {
        assert_eq!(run(&device(lines.clone()), strategy), Err(expected.clone()));
        assert_eq!(synthesize(&normalize(&lines, strategy), strategy), Err(expected.clone()));
    }
}

#[test]
fn the_first_repetition_is_the_one_reported() {
    let lines = vec![
        line("a", 1),
        line("b", 2),
        line("c", 3),
        line(" B ", 4),
        line("A", 5),
        line("b", 6),
    ];
    assert_eq!(
        run(&device(lines.clone()), Strategy::TypedTable),
        Err(SynthesisError::NameConflict { name: "b".to_string(), first_vector: 2, second_vector: 4 })
    );
}

#[test]
fn reserved_lines_of_one_name_are_no_conflict() {
    let lines = vec![line("RESERVED", 0), line("INT0", 1), line("RESERVED", 2), line("reserved", 3)];
    for strategy in ALL {
        let made = run(&device(lines.clone()), strategy).unwrap();
        assert_eq!(made.contract.interrupts, vec![capability("int0", 1)]);
    }
}

#[test]
fn find_conflict_gives_the_positions() {
    let distinct = vec![capability("a", 1), capability("b", 2), capability("c", 3)];
    assert_eq!(find_conflict(&distinct), None);
    assert_eq!(find_conflict(&Vec::new()), None);
    let repeated = vec![
        capability("a", 1),
        capability("b", 2),
        capability("c", 3),
        capability("c", 4),
        capability("a", 5),
    ];
    assert_eq!(find_conflict(&repeated), Some((2, 3)));
    let thrice = vec![capability("x", 1), capability("x", 2), capability("x", 3)];
    assert_eq!(find_conflict(&thrice), Some((0, 1)));
}

#[test]
fn the_static_strategy_gives_reserved_vectors_an_empty_handler() {
    let made = run(&device(scenario()), Strategy::Static).unwrap();
    assert_eq!(made.strategy, Strategy::Static);
    assert_eq!(made.contract.interrupts, vec![capability("uart_rx", 3)]);
    assert_eq!(made.contract.associated_types, vec![AssociatedType::Memory, AssociatedType::Arguments]);
    assert!(made.contract.single_implementation);
    assert_eq!(made.table, None);
    assert_eq!(made.handle, RuntimeHandle::DataOnly);
    assert_eq!(
        made.vectors,
        vec![
            VectorEntry { vector_index: 0, target: EntryTarget::Stub },
            VectorEntry { vector_index: 3, target: EntryTarget::Direct("uart_rx".to_string()) },
            VectorEntry { vector_index: 1, target: EntryTarget::Stub },
        ]
    );
}

#[test]
fn the_typed_table_has_a_fixed_layout_and_is_reached_by_pointer() {
    let made = run(&device(scenario()), Strategy::TypedTable).unwrap();
    assert_eq!(made.contract.associated_types, vec![AssociatedType::InitResult]);
    assert!(!made.contract.single_implementation);
    assert_eq!(made.handle, RuntimeHandle::TablePointer);
    let table = made.table.unwrap();
    assert!(table.fixed_layout);
    assert_eq!(table.slots.len(), 7);
    assert_eq!(
        made.vectors,
        vec![VectorEntry {
            vector_index: 3,
            target: EntryTarget::ThroughHandle("uart_rx".to_string()),
        }]
    );
}

#[test]
fn reserved_lines_get_no_capability_and_no_slot() {
    let lines = vec![
        line("Reserved_A", 0),
        line("INT0", 1),
        line("RESERVED", 2),
        line("INT1", 3),
        line("reserved9", 4),
    ];
    for strategy in ALL {
        let made = run(&device(lines.clone()), strategy).unwrap();
        assert_eq!(made.contract.interrupts, vec![capability("int0", 1), capability("int1", 3)]);
        for granted in &made.contract.interrupts {
            assert!(!granted.name.starts_with("reserved"));
        }
        match made.table {
            Some(table) => {
                assert!(strategy.uses_table());
                let mut slots = hook_slots();
                slots.push(Slot::Interrupt("int0".to_string()));
                slots.push(Slot::Interrupt("int1".to_string()));
                assert_eq!(table.slots, slots);
            },
            None => assert_eq!(strategy, Strategy::Static),
        }
        let stubs: Vec<u32> = made
            .vectors
            .iter()
            .filter(|entry| entry.target == EntryTarget::Stub)
            .map(|entry| entry.vector_index)
            .collect();
        if strategy == Strategy::Static {
            assert_eq!(stubs, [0, 2, 4]);
        } else {
            assert_eq!(stubs, Vec::<u32>::new());
        }
    }
}

#[test]
fn capabilities_slots_and_entries_follow_the_description() {
    let lines = vec![line("TIMER1", 9), line("ADC", 7), line("reserved", 8), line("INT0", 1)];
    for strategy in ALL {
        let made = run(&device(lines.clone()), strategy).unwrap();
        let names: Vec<&str> =
            made.contract.interrupts.iter().map(|granted| granted.name.as_str()).collect();
        assert_eq!(names, ["timer1", "adc", "int0"]);
        if let Some(table) = &made.table {
            assert_eq!(
                table.slots[6..],
                [
                    Slot::Interrupt("timer1".to_string()),
                    Slot::Interrupt("adc".to_string()),
                    Slot::Interrupt("int0".to_string()),
                ]
            );
        }
        let vectors: Vec<u32> = made.vectors.iter().map(|entry| entry.vector_index).collect();
        if strategy == Strategy::Static {
            assert_eq!(vectors, [9, 7, 8, 1]);
        } else {
            assert_eq!(vectors, [9, 7, 1]);
        }
    }
}

#[test]
fn the_table_has_six_slots_and_one_for_each_interrupt() {
    for count in [0u32, 1, 2, 5, 40] {
        let mut lines = Vec::new();
        for k in 0..count {
            lines.push(line(&format!("INT{}", k), 2 * k));
            lines.push(line(&format!("Reserved{}", k), 2 * k + 1));
        }
        for strategy in [Strategy::DynamicTable, Strategy::TypedTable] {
            let made = run(&device(lines.clone()), strategy).unwrap();
            let table = made.table.unwrap();
            assert_eq!(table.slots.len(), 6 + count as usize);
            assert_eq!(table.slots.len(), made.contract.hooks.len() + made.contract.interrupts.len());
            assert_eq!(made.vectors.len(), count as usize);
        }
        let made = run(&device(lines.clone()), Strategy::Static).unwrap();
        assert_eq!(made.table, None);
        assert_eq!(made.vectors.len(), 2 * count as usize);
    }
}

#[test]
fn a_device_without_interrupts_still_has_its_hooks() {
    for strategy in ALL {
        let made = run(&Vec::new(), strategy).unwrap();
        assert_eq!(made.contract.hooks.len(), 6);
        assert_eq!(made.contract.interrupts, Vec::new());
        assert_eq!(made.vectors, Vec::new());
        assert_eq!(made.table.map(|table| table.slots), strategy.uses_table().then(hook_slots));
    }
}

#[test]
fn descriptions_reach_the_capabilities() {
    let lines = vec![InterruptLine {
        name: "USART_RXC".to_string(),
        vector_index: 18,
        description: Some("  USART, \n  Rx Complete ".to_string()),
    }];
    let made = run(&device(lines.clone()), Strategy::Static).unwrap();
    assert_eq!(
        made.contract.interrupts,
        vec![InterruptCapability {
            name: "usart_rxc".to_string(),
            vector_index: 18,
            description: Some("USART,\nRx Complete".to_string()),
        }]
    );
}

#[test]
fn reserved_interrupts_handed_to_a_table_strategy_are_passed_over() {
    let interrupts = vec![normal("reserved0", 0, true), normal("uart_rx", 3, false)];
    let made = synthesize(&interrupts, Strategy::DynamicTable).unwrap();
    assert_eq!(made.contract.interrupts, vec![capability("uart_rx", 3)]);
    assert_eq!(made.vectors.len(), 1);
    assert_eq!(made.table.unwrap().slots.len(), 7);
}

#[test]
fn the_parts_agree_with_the_whole() {
    let interrupts = vec![normal("reserved0", 0, true), normal("uart_rx", 3, false), normal("adc", 2, false)];
    let granted = interrupt_capabilities(&interrupts);
    assert_eq!(granted, vec![capability("uart_rx", 3), capability("adc", 2)]);
    for strategy in ALL {
        let made = synthesize(&interrupts, strategy).unwrap();
        assert_eq!(made.contract.interrupts, granted);
        assert_eq!(made.contract.associated_types, associated_types(strategy));
        assert_eq!(made.handle, runtime_handle(strategy));
        assert_eq!(made.vectors, vector_entries(&interrupts, strategy));
        if let Some(table) = made.table {
            assert_eq!(table.slots, table_slots(&granted));
        }
    }
}

#[test]
fn only_idle_and_wake_run_outside_a_critical_section() {
    assert!(Hook::Init.runs_in_critical_section());
    assert!(Hook::Snapshot.runs_in_critical_section());
    assert!(!Hook::Idle.runs_in_critical_section());
    assert!(!Hook::Wake.runs_in_critical_section());
    assert!(Hook::Shutdown.runs_in_critical_section());
    assert!(Hook::IsReady.runs_in_critical_section());
}

#[test]
fn the_lines_of_all_peripherals_are_taken_in_order() {
    let peripherals = vec![
        Peripheral { name: "TC0".to_string(), interrupts: vec![line("TIMER0_OVF", 16), line("TIMER0_COMPA", 14)] },
        Peripheral { name: "WDT".to_string(), interrupts: Vec::new() },
        Peripheral { name: "CPU".to_string(), interrupts: vec![line("Reserved", 2)] },
        Peripheral { name: "ADC".to_string(), interrupts: vec![line("ADC", 21)] },
    ];
    let made = run(&peripherals, Strategy::Static).unwrap();
    let names: Vec<&str> =
        made.contract.interrupts.iter().map(|granted| granted.name.as_str()).collect();
    assert_eq!(names, ["timer0_ovf", "timer0_compa", "adc"]);
    let vectors: Vec<u32> = made.vectors.iter().map(|entry| entry.vector_index).collect();
    assert_eq!(vectors, [16, 14, 2, 21]);
}

#[test]
fn one_name_in_two_peripherals_is_a_conflict() {
    let peripherals = vec![
        Peripheral { name: "TC0".to_string(), interrupts: vec![line("OVF", 16)] },
        Peripheral { name: "TC1".to_string(), interrupts: vec![line("ovf", 13)] },
    ];
    assert_eq!(
        run(&peripherals, Strategy::DynamicTable),
        Err(SynthesisError::NameConflict { name: "ovf".to_string(), first_vector: 16, second_vector: 13 })
    );
}

#[test]
fn a_device_without_peripherals_has_no_interrupts() {
    for strategy in ALL {
        let made = run(&device(Vec::new()), strategy).unwrap();
        assert_eq!(made.contract.interrupts, Vec::new());
        assert_eq!(made, run(&Vec::new(), strategy).unwrap());
    }
}

#[test]
fn entries_that_call_a_capability_enter_a_critical_section() {
    let made = run(&device(scenario()), Strategy::Static).unwrap();
    let entered: Vec<bool> =
        made.vectors.iter().map(|entry| entry.enters_critical_section()).collect();
    assert_eq!(entered, [false, true, false]);
    let made = run(&device(scenario()), Strategy::DynamicTable).unwrap();
    assert!(made.vectors.iter().all(|entry| entry.enters_critical_section()));
}

#[test]
fn the_documentation_of_a_capability_is_its_description_line_by_line() {
    let described = InterruptCapability {
        name: "usart_rxc".to_string(),
        vector_index: 18,
        description: Some("USART,\n\nRx Complete\n".to_string()),
    };
    assert_eq!(described.documentation(), ["USART,", "", "Rx Complete"]);
    assert_eq!(capability("int0", 1).documentation(), Vec::<String>::new());
    let blank = InterruptCapability {
        name: "int1".to_string(),
        vector_index: 2,
        description: Some(String::new()),
    };
    assert_eq!(blank.documentation(), Vec::<String>::new());
}

#[test]
fn lines_at_distinct_vectors_get_entries_at_distinct_vectors() {
    let lines = vec![line("INT0", 1), line("Reserved", 2), line("INT1", 3), line("reserved_b", 0)];
    for strategy in ALL {
        let made = run(&device(lines.clone()), strategy).unwrap();
        let mut vectors: Vec<u32> = made.vectors.iter().map(|entry| entry.vector_index).collect();
        let count = vectors.len();
        vectors.sort();
        vectors.dedup();
        assert_eq!(vectors.len(), count);
    }
    let made = run(&device(lines.clone()), Strategy::Static).unwrap();
    let vectors: Vec<u32> = made.vectors.iter().map(|entry| entry.vector_index).collect();
    assert_eq!(vectors, [1, 2, 3, 0]);
}

#[test]
fn every_slot_but_those_of_idle_and_wake_runs_in_a_critical_section() {
    assert!(Slot::Hook(Hook::Init).runs_in_critical_section());
    assert!(Slot::Hook(Hook::Snapshot).runs_in_critical_section());
    assert!(!Slot::Hook(Hook::Idle).runs_in_critical_section());
    assert!(!Slot::Hook(Hook::Wake).runs_in_critical_section());
    assert!(Slot::Hook(Hook::Shutdown).runs_in_critical_section());
    assert!(Slot::Hook(Hook::IsReady).runs_in_critical_section());
    assert!(Slot::Interrupt("uart_rx".to_string()).runs_in_critical_section());
    let made = run(&device(scenario()), Strategy::DynamicTable).unwrap();
    let inside: Vec<bool> =
        made.table.unwrap().slots.iter().map(|slot| slot.runs_in_critical_section()).collect();
    assert_eq!(inside, [true, true, false, false, true, true, true]);
}
