//! The peripherals of a device and their interrupt lines, as the hardware
//! description gives them.

use vstd::prelude::*;

verus! {

/// One interrupt line of a peripheral.
#[derive(Clone, Debug, PartialEq, Eq)]
pub struct InterruptLine {
    /// The name the description gives the line.
    pub name: String,
    /// The position of the line in the hardware's interrupt vector table.
    pub vector_index: u32,
    /// What the description says about the line, if anything.
    pub description: Option<String>,
}

/// What an `InterruptLine` holds, as mathematical values.
pub struct LineModel {
    pub name: Seq<char>,
    pub vector_index: u32,
    pub description: Option<Seq<char>>,
}

/// The characters of a text that may be missing.
pub open spec fn text_model(text: Option<String>) -> Option<Seq<char>> {
    match text {
        Some(t) => Some(t@),
        None => None,
    }
}

impl View for InterruptLine {
    type V = LineModel;

    open spec fn view(&self) -> LineModel {
        LineModel {
            name: self.name@,
            vector_index: self.vector_index,
            description: text_model(self.description),
        }
    }
}

/// The models of a list of lines, in order.
pub open spec fn line_models(lines: Seq<InterruptLine>) -> Seq<LineModel> {
    Seq::new(lines.len(), |i: int| lines[i]@)
}

/// One peripheral of a device.
#[derive(Clone, Debug, PartialEq, Eq)]
pub struct Peripheral {
    /// The name the description gives the peripheral.
    pub name: String,
    /// The interrupt lines of the peripheral, in the order of the description.
    pub interrupts: Vec<InterruptLine>,
}

/// What a `Peripheral` holds, as mathematical values.
pub struct PeripheralModel {
    pub name: Seq<char>,
    pub interrupts: Seq<LineModel>,
}

impl View for Peripheral {
    type V = PeripheralModel;

    open spec fn view(&self) -> PeripheralModel {
        PeripheralModel { name: self.name@, interrupts: line_models(self.interrupts@) }
    }
}

/// The models of a list of peripherals, in order.
pub open spec fn peripheral_models(peripherals: Seq<Peripheral>) -> Seq<PeripheralModel> {
    Seq::new(peripherals.len(), |i: int| peripherals[i]@)
}

/// The interrupt lines of all the peripherals: those of the first peripheral
/// in their order, then those of the second, and so on.
pub open spec fn all_lines(peripherals: Seq<PeripheralModel>) -> Seq<LineModel>
    decreases peripherals.len(),
{
    if peripherals.len() == 0 {
        Seq::<LineModel>::empty()
    } else {
        all_lines(peripherals.drop_last()) + peripherals.last().interrupts
    }
}

/// A copy of `line`.
pub fn copy_line(line: &InterruptLine) -> (r: InterruptLine)
    ensures
        r@ == line@,
{
    InterruptLine {
        name: line.name.clone(),
        vector_index: line.vector_index,
        description: match &line.description {
            Some(text) => Some(text.clone()),
            None => None,
        },
    }
}

/// The interrupt lines of all the peripherals, in the order of the description.
pub fn interrupt_lines(peripherals: &Vec<Peripheral>) -> (r: Vec<InterruptLine>)
    ensures
        line_models(r@) == all_lines(peripheral_models(peripherals@)),
{
    let mut lines: Vec<InterruptLine> = Vec::new();
    let mut p: usize = 0;
    while p < peripherals.len()
        invariant
            p <= peripherals@.len(),
            line_models(lines@) == all_lines(peripheral_models(peripherals@).take(p as int)),
        decreases peripherals@.len() - p,
    {
        let ghost models = peripheral_models(peripherals@);
        let ghost before = lines@;
        assert(models.take(p + 1).drop_last() == models.take(p as int));
        assert(models.take(p + 1).last() == peripherals@[p as int]@);
        let peripheral = &peripherals[p];
        let mut i: usize = 0;
        while i < peripheral.interrupts.len()
            invariant
                i <= peripheral.interrupts@.len(),
                line_models(lines@) == line_models(before) + line_models(
                    peripheral.interrupts@,
                ).take(i as int),
            decreases peripheral.interrupts@.len() - i,
        {
            let ghost so_far = lines@;
            let line = copy_line(&peripheral.interrupts[i]);
            lines.push(line);
            assert(line_models(lines@) == line_models(so_far).push(line@));
            assert(line_models(peripheral.interrupts@).take(i + 1) == line_models(
                peripheral.interrupts@,
            ).take(i as int).push(peripheral.interrupts@[i as int]@));
            i += 1;
        }
        assert(line_models(peripheral.interrupts@).take(peripheral.interrupts@.len() as int)
            == line_models(peripheral.interrupts@));
        p += 1;
    }
    assert(peripheral_models(peripherals@).take(peripherals@.len() as int) == peripheral_models(
        peripherals@,
    ));
    lines
}

} // verus!
