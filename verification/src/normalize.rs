//! Canonical form of interrupt lines: which lines stay, and what becomes of
//! their names and descriptions.

use crate::descriptor::{line_models, text_model, InterruptLine, LineModel};
use crate::strategy::Strategy;
use crate::text::{fold_case, folded, trim_lines, trimmed, trimmed_lines};
use crate::utils::{starts_with_case_insensitive, starts_with_folded, StringTrimInPlace};
use vstd::prelude::*;

verus! {

/// An interrupt line in canonical form.
#[derive(Clone, Debug, PartialEq, Eq)]
pub struct NormalizedInterrupt {
    /// The name, trimmed and in lowercase: the name of the capability.
    pub name: String,
    /// The position of the line in the hardware's interrupt vector table.
    pub vector_index: u32,
    /// The description, each of its lines trimmed.
    pub description: Option<String>,
    /// Whether the line is a placeholder without a meaning of its own.
    pub is_reserved: bool,
}

/// What a `NormalizedInterrupt` holds, as mathematical values.
pub struct NormalizedModel {
    pub name: Seq<char>,
    pub vector_index: u32,
    pub description: Option<Seq<char>>,
    pub is_reserved: bool,
}

impl View for NormalizedInterrupt {
    type V = NormalizedModel;

    open spec fn view(&self) -> NormalizedModel {
        NormalizedModel {
            name: self.name@,
            vector_index: self.vector_index,
            description: text_model(self.description),
            is_reserved: self.is_reserved,
        }
    }
}

/// The models of a list of normalized interrupts, in order.
pub open spec fn normalized_models(interrupts: Seq<NormalizedInterrupt>) -> Seq<NormalizedModel> {
    Seq::new(interrupts.len(), |i: int| interrupts[i]@)
}

/// A name marks a reserved line when it starts with "reserved", in any mix
/// of capitals and small letters. The name is taken as the description gives it.
pub open spec fn is_reserved_name(name: Seq<char>) -> bool {
    starts_with_folded(name, "reserved"@)
}

/// The canonical form of a name: trimmed, then in lowercase.
pub open spec fn normalized_name(name: Seq<char>) -> Seq<char> {
    folded(trimmed(name))
}

/// The canonical form of a description: each line trimmed.
pub open spec fn normalized_description(description: Option<Seq<char>>) -> Option<Seq<char>> {
    match description {
        Some(text) => Some(trimmed_lines(text)),
        None => None,
    }
}

/// The canonical form of a line.
pub open spec fn normalized_line(line: LineModel) -> NormalizedModel {
    NormalizedModel {
        name: normalized_name(line.name),
        vector_index: line.vector_index,
        description: normalized_description(line.description),
        is_reserved: is_reserved_name(line.name),
    }
}

impl NormalizedModel {
    /// The interrupt is the canonical form of some line.
    pub open spec fn wf(self) -> bool {
        exists|line: LineModel| self == #[trigger] normalized_line(line)
    }
}

/// Whether a line stays in the list under `strategy`: a reserved line stays
/// only where the strategy gives it an empty handler.
pub open spec fn is_kept(line: LineModel, strategy: Strategy) -> bool {
    strategy.keeps_reserved() || !is_reserved_name(line.name)
}

/// The canonical forms of the lines that stay under `strategy`, in the order of `lines`.
pub open spec fn normalized(lines: Seq<LineModel>, strategy: Strategy) -> Seq<NormalizedModel>
    decreases lines.len(),
{
    if lines.len() == 0 {
        Seq::<NormalizedModel>::empty()
    } else {
        let before = normalized(lines.drop_last(), strategy);
        if is_kept(lines.last(), strategy) {
            before.push(normalized_line(lines.last()))
        } else {
            before
        }
    }
}

/// Tells whether `name` marks a reserved line.
pub fn is_reserved(name: &str) -> (r: bool)
    ensures
        r == is_reserved_name(name@),
{
    starts_with_case_insensitive(name, "reserved")
}

/// The canonical form of a name.
pub fn normalize_name(name: &str) -> (r: String)
    ensures
        r@ == normalized_name(name@),
{
    let mut kept = name.to_owned();
    kept.trim_in_place();
    fold_case(kept.as_str())
}

/// The canonical form of one line.
pub fn normalize_line(line: &InterruptLine) -> (r: NormalizedInterrupt)
    ensures
        r@ == normalized_line(line@),
        r@.wf(),
{
    let description = match &line.description {
        Some(text) => Some(trim_lines(text.as_str())),
        None => None,
    };
    NormalizedInterrupt {
        name: normalize_name(line.name.as_str()),
        vector_index: line.vector_index,
        description,
        is_reserved: is_reserved(line.name.as_str()),
    }
}

/// Brings the lines of a device into canonical form. Reserved lines are left
/// out unless `strategy` keeps them; the others follow in the order given.
pub fn normalize(lines: &Vec<InterruptLine>, strategy: Strategy) -> (r: Vec<NormalizedInterrupt>)
    ensures
        normalized_models(r@) == normalized(line_models(lines@), strategy),
        forall|k: int| 0 <= k < r@.len() ==> (#[trigger] r@[k])@.wf(),
{
    let mut out: Vec<NormalizedInterrupt> = Vec::new();
    let mut i: usize = 0;
    while i < lines.len()
        invariant
            i <= lines@.len(),
            normalized_models(out@) == normalized(line_models(lines@).take(i as int), strategy),
            forall|k: int| 0 <= k < out@.len() ==> (#[trigger] out@[k])@.wf(),
        decreases lines@.len() - i,
    {
        let ghost models = line_models(lines@);
        assert(models.take(i + 1).drop_last() == models.take(i as int));
        assert(models.take(i + 1).last() == lines@[i as int]@);
        let line = normalize_line(&lines[i]);
        if strategy.retains_reserved() || !line.is_reserved {
            let ghost before = out@;
            out.push(line);
            assert(normalized_models(out@) == normalized_models(before).push(line@));
        }
        i += 1;
    }
    assert(line_models(lines@).take(lines@.len() as int) == line_models(lines@));
    out
}

} // verus!
