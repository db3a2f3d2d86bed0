//! From normalized interrupts to the dispatch framework: the capability
//! contract, the table of function pointers, the runtime handle and the
//! entry points of the interrupt vectors.

use crate::descriptor::text_model;
use crate::laws::law_framework_fits;
use crate::normalize::{normalized_models, NormalizedInterrupt, NormalizedModel};
use crate::strategy::Strategy;
use crate::text::{printed_lines, split_lines, texts};
use vstd::prelude::*;

verus! {

/// A capability that every runtime has, whatever the device.
#[derive(Clone, Copy, Debug, PartialEq, Eq, Structural)]
pub enum Hook {
    /// Builds the runtime.
    Init,
    /// Records the state of the runtime.
    Snapshot,
    /// Runs while there is nothing to do.
    Idle,
    /// Runs when work arrives again.
    Wake,
    /// Ends the runtime.
    Shutdown,
    /// Tells whether the runtime can take work.
    IsReady,
}

impl Hook {
    /// Whether the hook runs with interrupts masked. `Idle` and `Wake` do not:
    /// they may be interrupted.
    pub open spec fn in_critical_section(self) -> bool {
        self != Hook::Idle && self != Hook::Wake
    }

    /// Whether the hook is one of the five lifecycle methods, which have no
    /// default; `IsReady` is the readiness predicate beside them.
    pub open spec fn is_lifecycle(self) -> bool {
        self != Hook::IsReady
    }

    /// Whether the hook runs with interrupts masked.
    pub fn runs_in_critical_section(self) -> (r: bool)
        ensures
            r == self.in_critical_section(),
    {
        match self {
            Hook::Idle | Hook::Wake => false,
            _ => true,
        }
    }
}

/// The hooks in the order in which contract and table hold them.
pub open spec fn hook_order() -> Seq<Hook> {
    seq![Hook::Init, Hook::Snapshot, Hook::Idle, Hook::Wake, Hook::Shutdown, Hook::IsReady]
}

/// A type that an implementation of the contract has to name.
#[derive(Clone, Copy, Debug, PartialEq, Eq, Structural)]
pub enum AssociatedType {
    /// What `Init` hands back: an aggregate of fixed size.
    InitResult,
    /// The memory that the runtime is built in.
    Memory,
    /// The arguments that `Init` hands back.
    Arguments,
}

/// The associated types that the contract of `strategy` asks for.
pub open spec fn associated_types_of(strategy: Strategy) -> Seq<AssociatedType> {
    match strategy {
        Strategy::DynamicTable => Seq::<AssociatedType>::empty(),
        Strategy::TypedTable => seq![AssociatedType::InitResult],
        Strategy::Static => seq![AssociatedType::Memory, AssociatedType::Arguments],
    }
}

/// The capability of one interrupt: a method that an implementation may
/// override, that does nothing by default and runs in a critical section.
#[derive(Clone, Debug, PartialEq, Eq)]
pub struct InterruptCapability {
    /// The name of the method.
    pub name: String,
    /// The vector that raises it.
    pub vector_index: u32,
    /// What the hardware description says about the interrupt.
    pub description: Option<String>,
}

/// What an `InterruptCapability` holds, as mathematical values.
pub struct CapabilityModel {
    pub name: Seq<char>,
    pub vector_index: u32,
    pub description: Option<Seq<char>>,
}

impl View for InterruptCapability {
    type V = CapabilityModel;

    open spec fn view(&self) -> CapabilityModel {
        CapabilityModel {
            name: self.name@,
            vector_index: self.vector_index,
            description: text_model(self.description),
        }
    }
}

impl InterruptCapability {
    /// The lines that document the capability: those of the description of
    /// its interrupt, and none where the interrupt has no description.
    pub fn documentation(&self) -> (r: Vec<String>)
        ensures
            texts(r@) == match self@.description {
                Some(text) => printed_lines(text),
                None => Seq::<Seq<char>>::empty(),
            },
    {
        match &self.description {
            Some(text) => split_lines(text.as_str()),
            None => Vec::new(),
        }
    }
}

/// The models of a list of capabilities, in order.
pub open spec fn capability_models(capabilities: Seq<InterruptCapability>) -> Seq<CapabilityModel> {
    Seq::new(capabilities.len(), |i: int| capabilities[i]@)
}

/// What an implementation of the runtime answers to.
#[derive(Clone, Debug, PartialEq, Eq)]
pub struct DispatchContract {
    /// The types that an implementation names.
    pub associated_types: Vec<AssociatedType>,
    /// The fixed capabilities, in table order.
    pub hooks: Vec<Hook>,
    /// One capability for each interrupt that is not reserved, in the order
    /// of the description.
    pub interrupts: Vec<InterruptCapability>,
    /// Whether a build admits one implementation only.
    pub single_implementation: bool,
}

/// What a `DispatchContract` holds, as mathematical values.
pub struct ContractModel {
    pub associated_types: Seq<AssociatedType>,
    pub hooks: Seq<Hook>,
    pub interrupts: Seq<CapabilityModel>,
    pub single_implementation: bool,
}

impl View for DispatchContract {
    type V = ContractModel;

    open spec fn view(&self) -> ContractModel {
        ContractModel {
            associated_types: self.associated_types@,
            hooks: self.hooks@,
            interrupts: capability_models(self.interrupts@),
            single_implementation: self.single_implementation,
        }
    }
}

/// One function pointer of the table.
#[derive(Clone, Debug, PartialEq, Eq)]
pub enum Slot {
    /// The trampoline of a fixed capability.
    Hook(Hook),
    /// The trampoline of the interrupt capability of this name.
    Interrupt(String),
}

/// What a `Slot` holds, as mathematical values.
pub enum SlotModel {
    Hook(Hook),
    Interrupt(Seq<char>),
}

impl View for Slot {
    type V = SlotModel;

    open spec fn view(&self) -> SlotModel {
        match self {
            Slot::Hook(hook) => SlotModel::Hook(*hook),
            Slot::Interrupt(name) => SlotModel::Interrupt(name@),
        }
    }
}

impl SlotModel {
    /// Whether what the slot points to runs with interrupts masked: the
    /// capability of an interrupt always does, and a hook does as
    /// `Hook::in_critical_section` says.
    pub open spec fn in_critical_section(self) -> bool {
        match self {
            SlotModel::Hook(hook) => hook.in_critical_section(),
            SlotModel::Interrupt(_) => true,
        }
    }
}

impl Slot {
    /// Whether what the slot points to runs with interrupts masked, and so
    /// is handed the token of the critical section.
    pub fn runs_in_critical_section(&self) -> (r: bool)
        ensures
            r == self@.in_critical_section(),
    {
        match self {
            Slot::Hook(hook) => hook.runs_in_critical_section(),
            Slot::Interrupt(_) => true,
        }
    }
}

/// The models of a list of slots, in order.
pub open spec fn slot_models(slots: Seq<Slot>) -> Seq<SlotModel> {
    Seq::new(slots.len(), |i: int| slots[i]@)
}

/// The table of function pointers that a handle dispatches through.
#[derive(Clone, Debug, PartialEq, Eq)]
pub struct DispatchTable {
    /// The slots: the hooks first, then the interrupts in the order of the description.
    pub slots: Vec<Slot>,
    /// Whether the order of the fields is fixed, so that the table can be reached by address.
    pub fixed_layout: bool,
}

/// What a `DispatchTable` holds, as mathematical values.
pub struct TableModel {
    pub slots: Seq<SlotModel>,
    pub fixed_layout: bool,
}

impl View for DispatchTable {
    type V = TableModel;

    open spec fn view(&self) -> TableModel {
        TableModel { slots: slot_models(self.slots@), fixed_layout: self.fixed_layout }
    }
}

/// What the handle to the runtime holds beside the pointer to the instance,
/// which it never owns.
#[derive(Clone, Copy, Debug, PartialEq, Eq, Structural)]
pub enum RuntimeHandle {
    /// A reference to the table of the concrete type.
    TableReference,
    /// A pointer to the table of the concrete type.
    TablePointer,
    /// Nothing: the concrete type is known where the handle is used.
    DataOnly,
}

/// What the entry point of a vector does.
#[derive(Clone, Debug, PartialEq, Eq)]
pub enum EntryTarget {
    /// Calls the capability of this name through the handle and its table.
    ThroughHandle(String),
    /// Calls the capability of this name on the one concrete runtime.
    Direct(String),
    /// Nothing: the vector is reserved and only needs some handler.
    Stub,
}

/// What an `EntryTarget` holds, as mathematical values.
pub enum TargetModel {
    ThroughHandle(Seq<char>),
    Direct(Seq<char>),
    Stub,
}

impl View for EntryTarget {
    type V = TargetModel;

    open spec fn view(&self) -> TargetModel {
        match self {
            EntryTarget::ThroughHandle(name) => TargetModel::ThroughHandle(name@),
            EntryTarget::Direct(name) => TargetModel::Direct(name@),
            EntryTarget::Stub => TargetModel::Stub,
        }
    }
}

/// The entry point bound to one interrupt vector. Where it calls a capability,
/// it does so inside a critical section of its own.
#[derive(Clone, Debug, PartialEq, Eq)]
pub struct VectorEntry {
    /// The vector.
    pub vector_index: u32,
    /// What the entry point does.
    pub target: EntryTarget,
}

/// What a `VectorEntry` holds, as mathematical values.
pub struct EntryModel {
    pub vector_index: u32,
    pub target: TargetModel,
}

impl View for VectorEntry {
    type V = EntryModel;

    open spec fn view(&self) -> EntryModel {
        EntryModel { vector_index: self.vector_index, target: self.target@ }
    }
}

impl VectorEntry {
    /// Whether the entry point sets up a critical section: it does where it
    /// calls a capability, and an empty one has no need to.
    pub fn enters_critical_section(&self) -> (r: bool)
        ensures
            r == is_call(self@),
    {
        match &self.target {
            EntryTarget::Stub => false,
            _ => true,
        }
    }
}

/// The models of a list of entries, in order.
pub open spec fn entry_models(entries: Seq<VectorEntry>) -> Seq<EntryModel> {
    Seq::new(entries.len(), |i: int| entries[i]@)
}

/// The dispatch framework of one device under one strategy.
#[derive(Clone, Debug, PartialEq, Eq)]
pub struct Framework {
    /// The strategy it was made for.
    pub strategy: Strategy,
    /// The capability contract.
    pub contract: DispatchContract,
    /// The table of function pointers, where the strategy has one.
    pub table: Option<DispatchTable>,
    /// The shape of the handle.
    pub handle: RuntimeHandle,
    /// The entry points, in the order of the description.
    pub vectors: Vec<VectorEntry>,
}

/// What a `Framework` holds, as mathematical values.
pub struct FrameworkModel {
    pub strategy: Strategy,
    pub contract: ContractModel,
    pub table: Option<TableModel>,
    pub handle: RuntimeHandle,
    pub vectors: Seq<EntryModel>,
}

impl View for Framework {
    type V = FrameworkModel;

    open spec fn view(&self) -> FrameworkModel {
        FrameworkModel {
            strategy: self.strategy,
            contract: self.contract@,
            table: match self.table {
                Some(table) => Some(table@),
                None => None,
            },
            handle: self.handle,
            vectors: entry_models(self.vectors@),
        }
    }
}

/// Why no framework could be made.
#[derive(Clone, Debug, PartialEq, Eq)]
pub enum SynthesisError {
    /// Two interrupts that are not reserved have the same normalized name.
    NameConflict {
        /// The name.
        name: String,
        /// The vector of the interrupt that comes first in the description.
        first_vector: u32,
        /// The vector of the interrupt that repeats the name.
        second_vector: u32,
    },
}

/// What a `SynthesisError` holds, as mathematical values.
pub enum ErrorModel {
    NameConflict { name: Seq<char>, first_vector: u32, second_vector: u32 },
}

impl View for SynthesisError {
    type V = ErrorModel;

    open spec fn view(&self) -> ErrorModel {
        match self {
            SynthesisError::NameConflict { name, first_vector, second_vector } => {
                ErrorModel::NameConflict {
                    name: name@,
                    first_vector: *first_vector,
                    second_vector: *second_vector,
                }
            },
        }
    }
}

/// The capability that a normalized interrupt gives rise to.
pub open spec fn capability_of(interrupt: NormalizedModel) -> CapabilityModel {
    CapabilityModel {
        name: interrupt.name,
        vector_index: interrupt.vector_index,
        description: interrupt.description,
    }
}

/// The capabilities of the interrupts that are not reserved, in the order of `interrupts`.
pub open spec fn capabilities(interrupts: Seq<NormalizedModel>) -> Seq<CapabilityModel>
    decreases interrupts.len(),
{
    if interrupts.len() == 0 {
        Seq::<CapabilityModel>::empty()
    } else {
        let before = capabilities(interrupts.drop_last());
        if interrupts.last().is_reserved {
            before
        } else {
            before.push(capability_of(interrupts.last()))
        }
    }
}

/// No two capabilities have the same name.
pub open spec fn names_distinct(capabilities: Seq<CapabilityModel>) -> bool {
    forall|i: int, j: int|
        0 <= i < j < capabilities.len() ==> (#[trigger] capabilities[i]).name != (
        #[trigger] capabilities[j]).name
}

/// The capability at `j` is the first that repeats a name, and the one at `i`
/// is the first that has this name.
pub open spec fn is_first_conflict(capabilities: Seq<CapabilityModel>, i: int, j: int) -> bool {
    &&& 0 <= i < j < capabilities.len()
    &&& capabilities[i].name == capabilities[j].name
    &&& names_distinct(capabilities.take(j))
    &&& forall|k: int| 0 <= k < i ==> (#[trigger] capabilities[k]).name != capabilities[j].name
}

/// The error that reports the capabilities at `i` and `j` as having one name.
pub open spec fn conflict_of(capabilities: Seq<CapabilityModel>, i: int, j: int) -> ErrorModel {
    ErrorModel::NameConflict {
        name: capabilities[j].name,
        first_vector: capabilities[i].vector_index,
        second_vector: capabilities[j].vector_index,
    }
}

/// The slots of the table for `capabilities`: one for each hook, then one for
/// each capability, in order.
pub open spec fn slots_of(capabilities: Seq<CapabilityModel>) -> Seq<SlotModel> {
    Seq::new(hook_order().len(), |i: int| SlotModel::Hook(hook_order()[i])) + Seq::new(
        capabilities.len(),
        |i: int| SlotModel::Interrupt(capabilities[i].name),
    )
}

/// The table for `capabilities` under `strategy`, where it has one.
pub open spec fn table_of(capabilities: Seq<CapabilityModel>, strategy: Strategy) -> Option<
    TableModel,
> {
    if strategy.has_table() {
        Some(
            TableModel {
                slots: slots_of(capabilities),
                fixed_layout: strategy == Strategy::TypedTable,
            },
        )
    } else {
        None
    }
}

/// The shape of the handle under `strategy`.
pub open spec fn handle_of(strategy: Strategy) -> RuntimeHandle {
    match strategy {
        Strategy::DynamicTable => RuntimeHandle::TableReference,
        Strategy::TypedTable => RuntimeHandle::TablePointer,
        Strategy::Static => RuntimeHandle::DataOnly,
    }
}

/// How the entry point of a vector reaches the capability `name` under `strategy`.
pub open spec fn target_of(name: Seq<char>, strategy: Strategy) -> TargetModel {
    if strategy.has_table() {
        TargetModel::ThroughHandle(name)
    } else {
        TargetModel::Direct(name)
    }
}

/// The entry point that `interrupt` gets under `strategy`, if it gets one: a
/// reserved interrupt gets an empty one where the strategy keeps reserved
/// lines and none elsewhere; any other calls its capability.
pub open spec fn entry_of(interrupt: NormalizedModel, strategy: Strategy) -> Option<EntryModel> {
    if !interrupt.is_reserved {
        Some(
            EntryModel {
                vector_index: interrupt.vector_index,
                target: target_of(interrupt.name, strategy),
            },
        )
    } else if strategy.keeps_reserved() {
        Some(EntryModel { vector_index: interrupt.vector_index, target: TargetModel::Stub })
    } else {
        None
    }
}

/// The entry points for `interrupts` under `strategy`, in the order of `interrupts`.
pub open spec fn entries(interrupts: Seq<NormalizedModel>, strategy: Strategy) -> Seq<EntryModel>
    decreases interrupts.len(),
{
    if interrupts.len() == 0 {
        Seq::<EntryModel>::empty()
    } else {
        let before = entries(interrupts.drop_last(), strategy);
        match entry_of(interrupts.last(), strategy) {
            Some(entry) => before.push(entry),
            None => before,
        }
    }
}

/// The contract for `capabilities` under `strategy`.
pub open spec fn contract_of(capabilities: Seq<CapabilityModel>, strategy: Strategy) -> ContractModel {
    ContractModel {
        associated_types: associated_types_of(strategy),
        hooks: hook_order(),
        interrupts: capabilities,
        single_implementation: strategy == Strategy::Static,
    }
}

/// The framework for `interrupts` under `strategy`.
pub open spec fn framework(interrupts: Seq<NormalizedModel>, strategy: Strategy) -> FrameworkModel {
    FrameworkModel {
        strategy,
        contract: contract_of(capabilities(interrupts), strategy),
        table: table_of(capabilities(interrupts), strategy),
        handle: handle_of(strategy),
        vectors: entries(interrupts, strategy),
    }
}

/// An entry point that calls a capability, as opposed to an empty one.
pub open spec fn is_call(entry: EntryModel) -> bool {
    entry.target != TargetModel::Stub
}

/// The entry point that calls `capability` under `strategy`.
pub open spec fn binding_of(capability: CapabilityModel, strategy: Strategy) -> EntryModel {
    EntryModel {
        vector_index: capability.vector_index,
        target: target_of(capability.name, strategy),
    }
}

impl FrameworkModel {
    /// The parts of the framework fit each other and the strategy: the
    /// capabilities have distinct names, the table has the hooks and then one
    /// slot for each capability, and the entry points that call a capability
    /// are the bindings of the capabilities, one for one and in their order.
    /// Empty entry points occur only where the strategy keeps reserved lines.
    pub open spec fn wf(self) -> bool {
        &&& self.contract.associated_types == associated_types_of(self.strategy)
        &&& self.contract.hooks == hook_order()
        &&& self.contract.single_implementation == (self.strategy == Strategy::Static)
        &&& names_distinct(self.contract.interrupts)
        &&& self.table == table_of(self.contract.interrupts, self.strategy)
        &&& self.handle == handle_of(self.strategy)
        &&& self.vectors.filter(|entry: EntryModel| is_call(entry)) == Seq::new(
            self.contract.interrupts.len(),
            |k: int| binding_of(self.contract.interrupts[k], self.strategy),
        )
        &&& !self.strategy.keeps_reserved() ==> forall|k: int|
            0 <= k < self.vectors.len() ==> is_call(#[trigger] self.vectors[k])
    }
}

/// `result` is what synthesis owes for `interrupts` under `strategy`: the
/// framework where the capabilities have distinct names, and else the error
/// that reports the first repetition of a name.
pub open spec fn is_synthesis(
    result: Result<Framework, SynthesisError>,
    interrupts: Seq<NormalizedModel>,
    strategy: Strategy,
) -> bool {
    match result {
        Ok(made) => {
            &&& names_distinct(capabilities(interrupts))
            &&& made@ == framework(interrupts, strategy)
        },
        Err(error) => exists|i: int, j: int|
            {
                &&& is_first_conflict(capabilities(interrupts), i, j)
                &&& error@ == conflict_of(capabilities(interrupts), i, j)
            },
    }
}

/// The copy of a text that may be missing.
fn copy_text(text: &Option<String>) -> (r: Option<String>)
    ensures
        text_model(r) == text_model(*text),
{
    match text {
        Some(t) => Some(t.clone()),
        None => None,
    }
}

/// The capabilities of the interrupts that are not reserved.
pub fn interrupt_capabilities(interrupts: &Vec<NormalizedInterrupt>) -> (r: Vec<
    InterruptCapability,
>)
    ensures
        capability_models(r@) == capabilities(normalized_models(interrupts@)),
{
    let mut out: Vec<InterruptCapability> = Vec::new();
    let mut i: usize = 0;
    while i < interrupts.len()
        invariant
            i <= interrupts@.len(),
            capability_models(out@) == capabilities(
                normalized_models(interrupts@).take(i as int),
            ),
        decreases interrupts@.len() - i,
    {
        let ghost models = normalized_models(interrupts@);
        assert(models.take(i + 1).drop_last() == models.take(i as int));
        assert(models.take(i + 1).last() == interrupts@[i as int]@);
        let interrupt = &interrupts[i];
        if !interrupt.is_reserved {
            let capability = InterruptCapability {
                name: interrupt.name.clone(),
                vector_index: interrupt.vector_index,
                description: copy_text(&interrupt.description),
            };
            let ghost before = out@;
            out.push(capability);
            assert(capability_models(out@) == capability_models(before).push(capability@));
        }
        i += 1;
    }
    assert(normalized_models(interrupts@).take(interrupts@.len() as int) == normalized_models(
        interrupts@,
    ));
    out
}

/// Looks for two capabilities of one name. Where there are any, the result
/// is the first capability that repeats a name, after the first of that name.
pub fn find_conflict(capabilities: &Vec<InterruptCapability>) -> (r: Option<(usize, usize)>)
    ensures
        match r {
            Some((i, j)) => is_first_conflict(capability_models(capabilities@), i as int, j as int),
            None => names_distinct(capability_models(capabilities@)),
        },
{
    let ghost models = capability_models(capabilities@);
    let mut j: usize = 0;
    while j < capabilities.len()
        invariant
            j <= capabilities@.len(),
            models == capability_models(capabilities@),
            names_distinct(models.take(j as int)),
        decreases capabilities@.len() - j,
    {
        let mut i: usize = 0;
        while i < j
            invariant
                i <= j < capabilities@.len(),
                models == capability_models(capabilities@),
                names_distinct(models.take(j as int)),
                forall|k: int| 0 <= k < i ==> (#[trigger] models[k]).name != models[j as int].name,
            decreases j - i,
        {
            if capabilities[i].name == capabilities[j].name {
                return Some((i, j));
            }
            i += 1;
        }
        assert forall|a: int, b: int| 0 <= a < b < j + 1 implies (#[trigger] models.take(j + 1)[a]).name
            != (#[trigger] models.take(j + 1)[b]).name by {
            if b < j {
                assert(models.take(j as int)[a].name != models.take(j as int)[b].name);
            }
        }
        j += 1;
    }
    assert(models.take(capabilities@.len() as int) == models);
    None
}

/// The slots of the table for `capabilities`.
pub fn table_slots(capabilities: &Vec<InterruptCapability>) -> (r: Vec<Slot>)
    ensures
        slot_models(r@) == slots_of(capability_models(capabilities@)),
        r@.len() == 6 + capabilities@.len(),
{
    let mut slots: Vec<Slot> = vec![
        Slot::Hook(Hook::Init),
        Slot::Hook(Hook::Snapshot),
        Slot::Hook(Hook::Idle),
        Slot::Hook(Hook::Wake),
        Slot::Hook(Hook::Shutdown),
        Slot::Hook(Hook::IsReady),
    ];
    let ghost models = capability_models(capabilities@);
    assert(slot_models(slots@) == slots_of(models.take(0)));
    let mut i: usize = 0;
    while i < capabilities.len()
        invariant
            i <= capabilities@.len(),
            models == capability_models(capabilities@),
            slot_models(slots@) == slots_of(models.take(i as int)),
        decreases capabilities@.len() - i,
    {
        let ghost before = slots@;
        let slot = Slot::Interrupt(capabilities[i].name.clone());
        slots.push(slot);
        assert(slot_models(slots@) == slot_models(before).push(slot@));
        assert(slots_of(models.take(i + 1)) == slots_of(models.take(i as int)).push(
            SlotModel::Interrupt(models[i as int].name),
        ));
        i += 1;
    }
    assert(models.take(capabilities@.len() as int) == models);
    slots
}

/// The entry points for `interrupts` under `strategy`.
pub fn vector_entries(interrupts: &Vec<NormalizedInterrupt>, strategy: Strategy) -> (r: Vec<
    VectorEntry,
>)
    ensures
        entry_models(r@) == entries(normalized_models(interrupts@), strategy),
{
    let mut out: Vec<VectorEntry> = Vec::new();
    let mut i: usize = 0;
    while i < interrupts.len()
        invariant
            i <= interrupts@.len(),
            entry_models(out@) == entries(normalized_models(interrupts@).take(i as int), strategy),
        decreases interrupts@.len() - i,
    {
        let ghost models = normalized_models(interrupts@);
        assert(models.take(i + 1).drop_last() == models.take(i as int));
        assert(models.take(i + 1).last() == interrupts@[i as int]@);
        let interrupt = &interrupts[i];
        let target = if !interrupt.is_reserved {
            if strategy.uses_table() {
                Some(EntryTarget::ThroughHandle(interrupt.name.clone()))
            } else {
                Some(EntryTarget::Direct(interrupt.name.clone()))
            }
        } else if strategy.retains_reserved() {
            Some(EntryTarget::Stub)
        } else {
            None
        };
        match target {
            Some(target) => {
                let entry = VectorEntry { vector_index: interrupt.vector_index, target };
                let ghost before = out@;
                out.push(entry);
                assert(entry_models(out@) == entry_models(before).push(entry@));
            },
            None => {},
        }
        i += 1;
    }
    assert(normalized_models(interrupts@).take(interrupts@.len() as int) == normalized_models(
        interrupts@,
    ));
    out
}

/// The associated types that the contract of `strategy` asks for.
pub fn associated_types(strategy: Strategy) -> (r: Vec<AssociatedType>)
    ensures
        r@ == associated_types_of(strategy),
{
    match strategy {
        Strategy::DynamicTable => Vec::new(),
        Strategy::TypedTable => vec![AssociatedType::InitResult],
        Strategy::Static => vec![AssociatedType::Memory, AssociatedType::Arguments],
    }
}

/// The shape of the handle under `strategy`.
pub fn runtime_handle(strategy: Strategy) -> (r: RuntimeHandle)
    ensures
        r == handle_of(strategy),
{
    match strategy {
        Strategy::DynamicTable => RuntimeHandle::TableReference,
        Strategy::TypedTable => RuntimeHandle::TablePointer,
        Strategy::Static => RuntimeHandle::DataOnly,
    }
}

/// Derives the dispatch framework for `interrupts` under `strategy`.
///
/// Every interrupt that is not reserved becomes a capability of the contract,
/// a slot of the table (where the strategy has one) and an entry point. Two
/// such interrupts of one name are an error: the first repetition is reported
/// and nothing is made.
pub fn synthesize(interrupts: &Vec<NormalizedInterrupt>, strategy: Strategy) -> (r: Result<
    Framework,
    SynthesisError,
>)
    ensures
        is_synthesis(r, normalized_models(interrupts@), strategy),
        r matches Ok(made) ==> made@.wf(),
{
    let offered = interrupt_capabilities(interrupts);
    match find_conflict(&offered) {
        Some((i, j)) => {
            let error = SynthesisError::NameConflict {
                name: offered[j].name.clone(),
                first_vector: offered[i].vector_index,
                second_vector: offered[j].vector_index,
            };
            assert(error@ == conflict_of(capability_models(offered@), i as int, j as int));
            return Err(error);
        },
        None => {},
    }
    let table = if strategy.uses_table() {
        Some(
            DispatchTable {
                slots: table_slots(&offered),
                fixed_layout: match strategy {
                    Strategy::TypedTable => true,
                    _ => false,
                },
            },
        )
    } else {
        None
    };
    let contract = DispatchContract {
        associated_types: associated_types(strategy),
        hooks: vec![
            Hook::Init,
            Hook::Snapshot,
            Hook::Idle,
            Hook::Wake,
            Hook::Shutdown,
            Hook::IsReady,
        ],
        interrupts: offered,
        single_implementation: match strategy {
            Strategy::Static => true,
            _ => false,
        },
    };
    let made = Framework {
        strategy,
        contract,
        table,
        handle: runtime_handle(strategy),
        vectors: vector_entries(interrupts, strategy),
    };
    assert(made.contract@ == contract_of(
        capabilities(normalized_models(interrupts@)),
        strategy,
    ));
    proof {
        law_framework_fits(normalized_models(interrupts@), strategy);
    }
    Ok(made)
}

} // verus!
