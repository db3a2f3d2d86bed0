//! What holds of normalization and synthesis on every input.

use crate::descriptor::LineModel;
use crate::normalize::{
    is_kept, is_reserved_name, normalized, normalized_description, normalized_line,
    normalized_name, NormalizedModel,
};
use crate::strategy::Strategy;
use crate::synthesis::{
    binding_of, capabilities, capability_of, entries, entry_of, framework, hook_order, is_call,
    names_distinct, EntryModel, Hook, RuntimeHandle, SlotModel, TargetModel,
};
use crate::text::{
    ascii_lower, folded, folded_chars, is_trimmed, is_whitespace, joined, lines_of, skip_leading,
    skip_trailing, terminated, trim_each, trimmed, trimmed_lines,
};
use crate::utils::starts_with_folded;
use vstd::prelude::*;
use vstd::utf8::is_ascii_chars;

verus! {

/// What is left when leading white space is skipped is the end of the text,
/// and does not start with white space.
pub proof fn lemma_skip_leading(s: Seq<char>)
    ensures
        skip_leading(s).len() <= s.len(),
        skip_leading(s) == s.skip(s.len() - skip_leading(s).len()),
        skip_leading(s).len() > 0 ==> !is_whitespace(skip_leading(s).first()),
    decreases s.len(),
{
    if s.len() > 0 && is_whitespace(s[0]) {
        lemma_skip_leading(s.drop_first());
        let rest = skip_leading(s.drop_first());
        assert(s.drop_first().skip(s.drop_first().len() - rest.len()) == s.skip(
            s.len() - rest.len(),
        ));
    } else {
        assert(s.skip(0) == s);
    }
}

/// What is left when trailing white space is skipped is the beginning of the
/// text, and does not end with white space.
pub proof fn lemma_skip_trailing(s: Seq<char>)
    ensures
        skip_trailing(s).len() <= s.len(),
        skip_trailing(s) == s.take(skip_trailing(s).len() as int),
        skip_trailing(s).len() > 0 ==> !is_whitespace(skip_trailing(s).last()),
    decreases s.len(),
{
    if s.len() > 0 && is_whitespace(s.last()) {
        lemma_skip_trailing(s.drop_last());
        let rest = skip_trailing(s.drop_last());
        assert(s.drop_last().take(rest.len() as int) == s.take(rest.len() as int));
    } else {
        assert(s.take(s.len() as int) == s);
    }
}

/// A trimmed text is a piece of the text it was made from, with no white
/// space at either end.
pub proof fn lemma_trimmed_is_trimmed(s: Seq<char>)
    ensures
        is_trimmed(trimmed(s)),
        trimmed(s).len() <= skip_leading(s).len() <= s.len(),
        trimmed(s) == s.subrange(
            s.len() - skip_leading(s).len(),
            s.len() - skip_leading(s).len() + trimmed(s).len(),
        ),
{
    let inner = skip_leading(s);
    lemma_skip_leading(s);
    lemma_skip_trailing(inner);
    let from = s.len() - inner.len();
    assert(trimmed(s) == s.subrange(from, from + trimmed(s).len()));
}

/// Trimming leaves a text without white space at its ends as it is.
pub proof fn lemma_trimmed_fixes_trimmed(s: Seq<char>)
    requires
        is_trimmed(s),
    ensures
        trimmed(s) == s,
{
}

/// Trimming is idempotent: a trimmed text is not changed by trimming it again.
pub proof fn lemma_trimmed_idempotent(s: Seq<char>)
    ensures
        trimmed(trimmed(s)) == trimmed(s),
{
    lemma_trimmed_is_trimmed(s);
    lemma_trimmed_fixes_trimmed(trimmed(s));
}

/// Folding an ASCII letter twice gives what folding it once gives, and folding
/// neither makes nor removes white space.
pub proof fn lemma_ascii_lower(c: char)
    ensures
        ascii_lower(ascii_lower(c)) == ascii_lower(c),
        is_whitespace(ascii_lower(c)) == is_whitespace(c),
        (c as u32) < 0x80 ==> (ascii_lower(c) as u32) < 0x80,
{
}

/// The lowercase form of an ASCII text is an ASCII text of the same length,
/// and folding it again changes nothing.
pub proof fn lemma_folded_ascii(s: Seq<char>)
    requires
        is_ascii_chars(s),
    ensures
        is_ascii_chars(folded(s)),
        folded(s).len() == s.len(),
        folded(folded(s)) == folded(s),
        is_trimmed(s) ==> is_trimmed(folded(s)),
{
    let once = folded(s);
    assert forall|i: int| 0 <= i < once.len() implies '\0' <= #[trigger] once[i] <= '\u{7f}' by {
        lemma_ascii_lower(s[i]);
    }
    assert forall|i: int| 0 <= i < once.len() implies ascii_lower(#[trigger] once[i]) == once[i] by {
        lemma_ascii_lower(s[i]);
    }
    assert(folded(once) == once);
    if s.len() > 0 {
        lemma_ascii_lower(s.first());
        lemma_ascii_lower(s.last());
    }
}

/// Normalization of names is idempotent: an ASCII name that is already
/// normalized is not changed by normalizing it again.
pub proof fn lemma_normalized_name_idempotent(name: Seq<char>)
    requires
        is_ascii_chars(name),
    ensures
        normalized_name(normalized_name(name)) == normalized_name(name),
{
    let kept = trimmed(name);
    lemma_trimmed_is_trimmed(name);
    let from = name.len() - skip_leading(name).len();
    assert forall|i: int| 0 <= i < kept.len() implies '\0' <= #[trigger] kept[i] <= '\u{7f}' by {
        assert(kept[i] == name[from + i]);
    }
    lemma_folded_ascii(kept);
    lemma_trimmed_fixes_trimmed(folded(kept));
}

/// Taken character by character or as a whole, the lowercase form of an ASCII
/// text is the same.
pub proof fn lemma_folded_chars_ascii(s: Seq<char>)
    requires
        is_ascii_chars(s),
    ensures
        folded_chars(s) == folded(s),
        folded_chars(s).len() == s.len(),
    decreases s.len(),
{
    if s.len() > 0 {
        let shorter = s.drop_last();
        assert forall|i: int| 0 <= i < shorter.len() implies '\0' <= #[trigger] shorter[i]
            <= '\u{7f}' by {
            assert(shorter[i] == s[i]);
        }
        lemma_folded_chars_ascii(shorter);
        assert(folded(s) == folded(shorter).push(ascii_lower(s.last())));
    }
}

/// On ASCII texts the test that leaves case out of account looks at the
/// lowercase form of the whole text: `a` starts with `b` exactly when the
/// lowercase form of `b` is the beginning of the lowercase form of `a`.
pub proof fn lemma_starts_with_ascii(a: Seq<char>, b: Seq<char>)
    requires
        is_ascii_chars(a),
        is_ascii_chars(b),
    ensures
        starts_with_folded(a, b) <==> folded(b).is_prefix_of(folded(a)),
{
    lemma_folded_chars_ascii(a);
    lemma_folded_chars_ascii(b);
}

/// An ASCII name marks a reserved line exactly when its lowercase form
/// starts with the word "reserved".
pub proof fn lemma_reserved_ascii(name: Seq<char>)
    requires
        is_ascii_chars(name),
    ensures
        is_reserved_name(name) <==> "reserved"@.is_prefix_of(folded(name)),
{
    let word = "reserved"@;
    reveal_strlit("reserved");
    assert(word == seq!['r', 'e', 's', 'e', 'r', 'v', 'e', 'd']);
    assert(is_ascii_chars(word));
    assert(folded(word) == word);
    lemma_starts_with_ascii(name, word);
}

/// The lowercase forms of the characters of two texts put together are the
/// lowercase forms of the two put together.
pub proof fn lemma_folded_chars_joined(x: Seq<char>, y: Seq<char>)
    ensures
        folded_chars(x + y) == folded_chars(x) + folded_chars(y),
    decreases y.len(),
{
    if y.len() == 0 {
        assert(x + y == x);
    } else {
        lemma_folded_chars_joined(x, y.drop_last());
        assert((x + y).drop_last() == x + y.drop_last());
        assert((x + y).last() == y.last());
    }
}

/// The first eight characters of a name, or all of them where it has fewer.
pub open spec fn start_of(name: Seq<char>) -> Seq<char> {
    if name.len() >= 8 {
        name.take(8)
    } else {
        name
    }
}

/// Whether a name marks a reserved line is settled by its first eight
/// characters. Where these are ASCII, the name marks a reserved line exactly
/// when there are eight of them and their lowercase form is the word
/// "reserved", whatever follows them.
pub proof fn lemma_reserved_by_start(name: Seq<char>)
    requires
        is_ascii_chars(start_of(name)),
    ensures
        is_reserved_name(name) <==> name.len() >= 8 && folded(name.take(8)) == "reserved"@,
{
    let word = "reserved"@;
    reveal_strlit("reserved");
    assert(word == seq!['r', 'e', 's', 'e', 'r', 'v', 'e', 'd']);
    assert(is_ascii_chars(word));
    assert(folded(word) == word);
    lemma_folded_chars_ascii(word);
    lemma_folded_chars_ascii(start_of(name));
    if name.len() >= 8 {
        let start = name.take(8);
        let rest = name.skip(8);
        assert(name == start + rest);
        lemma_folded_chars_joined(start, rest);
        assert((folded_chars(start) + folded_chars(rest)).subrange(0, 8) == folded_chars(start));
    }
}

/// A text without a newline.
pub open spec fn is_single_line(s: Seq<char>) -> bool {
    forall|i: int| 0 <= i < s.len() ==> #[trigger] s[i] != '\n'
}

/// Texts without a newline.
pub open spec fn are_single_lines(lines: Seq<Seq<char>>) -> bool {
    forall|k: int| 0 <= k < lines.len() ==> is_single_line(#[trigger] lines[k])
}

/// A text has at least one line, and no line of it holds a newline.
pub proof fn lemma_lines_are_single(s: Seq<char>)
    ensures
        lines_of(s).len() > 0,
        are_single_lines(lines_of(s)),
    decreases s.len(),
{
    if s.len() > 0 {
        lemma_lines_are_single(s.drop_last());
    }
}

/// Text without a newline that is added to a text goes to its last line.
pub proof fn lemma_lines_of_extended(a: Seq<char>, b: Seq<char>)
    requires
        is_single_line(b),
    ensures
        lines_of(a + b) == lines_of(a).drop_last().push(lines_of(a).last() + b),
    decreases b.len(),
{
    lemma_lines_are_single(a);
    if b.len() == 0 {
        assert(a + b == a);
        assert(lines_of(a).last() + b == lines_of(a).last());
        assert(lines_of(a).drop_last().push(lines_of(a).last()) == lines_of(a));
    } else {
        lemma_lines_of_extended(a, b.drop_last());
        assert((a + b).drop_last() == a + b.drop_last());
        assert((a + b).last() == b.last());
        assert(lines_of(a).last() + b == (lines_of(a).last() + b.drop_last()).push(b.last()));
        assert(lines_of(a + b) == lines_of(a).drop_last().push(lines_of(a).last() + b));
    }
}

/// The lines of lines that each end in a newline are those lines, and an
/// empty one after them.
pub proof fn lemma_lines_of_terminated(lines: Seq<Seq<char>>)
    requires
        are_single_lines(lines),
    ensures
        lines_of(terminated(lines)) == lines.push(Seq::<char>::empty()),
    decreases lines.len(),
{
    if lines.len() > 0 {
        let before = terminated(lines.drop_last());
        lemma_lines_of_terminated(lines.drop_last());
        lemma_lines_of_extended(before, lines.last());
        assert(Seq::<char>::empty() + lines.last() == lines.last());
        assert(lines.drop_last().push(Seq::<char>::empty()).drop_last() == lines.drop_last());
        assert(lines.drop_last().push(lines.last()) == lines);
        let whole = before + lines.last() + seq!['\n'];
        assert(whole.drop_last() == before + lines.last());
        assert(whole.last() == '\n');
    }
}

/// Splitting undoes joining: the lines of joined lines are those lines.
pub proof fn lemma_lines_of_joined(lines: Seq<Seq<char>>)
    requires
        lines.len() > 0,
        are_single_lines(lines),
    ensures
        lines_of(joined(lines)) == lines,
{
    let before = terminated(lines.drop_last());
    lemma_lines_of_terminated(lines.drop_last());
    lemma_lines_of_extended(before, lines.last());
    assert(Seq::<char>::empty() + lines.last() == lines.last());
    assert(lines.drop_last().push(Seq::<char>::empty()).drop_last() == lines.drop_last());
    assert(lines.drop_last().push(lines.last()) == lines);
}

/// Normalization of descriptions is idempotent: a text whose lines are
/// trimmed is not changed by trimming its lines again.
pub proof fn lemma_trimmed_lines_idempotent(s: Seq<char>)
    ensures
        trimmed_lines(trimmed_lines(s)) == trimmed_lines(s),
{
    let lines = trim_each(lines_of(s));
    lemma_lines_are_single(s);
    assert forall|k: int| 0 <= k < lines.len() implies is_single_line(#[trigger] lines[k]) by {
        let line = lines_of(s)[k];
        lemma_trimmed_is_trimmed(line);
        assert(is_single_line(line));
        let from = line.len() - skip_leading(line).len();
        assert forall|i: int| 0 <= i < lines[k].len() implies #[trigger] lines[k][i] != '\n' by {
            assert(lines[k][i] == line[from + i]);
        }
    }
    lemma_lines_of_joined(lines);
    assert forall|k: int| 0 <= k < lines.len() implies trimmed(#[trigger] lines[k]) == lines[k] by {
        lemma_trimmed_idempotent(lines_of(s)[k]);
    }
    assert(trim_each(lines) == lines);
}

/// Normalizing a normalized description changes nothing.
pub proof fn lemma_normalized_description_idempotent(description: Option<Seq<char>>)
    ensures
        normalized_description(normalized_description(description)) == normalized_description(
            description,
        ),
{
    match description {
        Some(text) => lemma_trimmed_lines_idempotent(text),
        None => {},
    }
}

/// The positions in `lines` of the lines that are not reserved, and of the
/// reserved ones too where `keep_reserved` holds, in ascending order.
pub open spec fn kept_positions(lines: Seq<LineModel>, keep_reserved: bool) -> Seq<int>
    decreases lines.len(),
{
    if lines.len() == 0 {
        Seq::<int>::empty()
    } else {
        let before = kept_positions(lines.drop_last(), keep_reserved);
        if keep_reserved || !is_reserved_name(lines.last().name) {
            before.push(lines.len() - 1)
        } else {
            before
        }
    }
}

/// `kept_positions` holds each position of a line that stays, once, and no
/// other, in ascending order.
pub proof fn lemma_kept_positions(lines: Seq<LineModel>, keep_reserved: bool)
    ensures
        kept_positions(lines, keep_reserved).len() <= lines.len(),
        forall|k: int|
            0 <= k < kept_positions(lines, keep_reserved).len() ==> {
                let at = #[trigger] kept_positions(lines, keep_reserved)[k];
                0 <= at < lines.len() && (keep_reserved || !is_reserved_name(lines[at].name))
            },
        forall|a: int, b: int|
            0 <= a < b < kept_positions(lines, keep_reserved).len() ==> (#[trigger] kept_positions(
                lines,
                keep_reserved,
            )[a]) < (#[trigger] kept_positions(lines, keep_reserved)[b]),
        forall|i: int|
            0 <= i < lines.len() && (keep_reserved || !is_reserved_name((#[trigger] lines[i]).name))
                ==> kept_positions(lines, keep_reserved).contains(i),
    decreases lines.len(),
{
    if lines.len() > 0 {
        let shorter = lines.drop_last();
        let before = kept_positions(shorter, keep_reserved);
        let now = kept_positions(lines, keep_reserved);
        lemma_kept_positions(shorter, keep_reserved);
        assert forall|k: int| 0 <= k < now.len() implies {
            let at = #[trigger] now[k];
            0 <= at < lines.len() && (keep_reserved || !is_reserved_name(lines[at].name))
        } by {
            if k < before.len() {
                assert(now[k] == before[k]);
                assert(lines[before[k]] == shorter[before[k]]);
            }
        }
        assert forall|a: int, b: int| 0 <= a < b < now.len() implies (#[trigger] now[a]) < (
        #[trigger] now[b]) by {
            assert(now[a] == before[a]);
            if b < before.len() {
                assert(now[b] == before[b]);
            }
        }
        assert forall|i: int|
            0 <= i < lines.len() && (keep_reserved || !is_reserved_name(
                (#[trigger] lines[i]).name,
            )) implies now.contains(i) by {
            if i < lines.len() - 1 {
                assert(lines[i] == shorter[i]);
                assert(before.contains(i));
                let k = choose|k: int| 0 <= k < before.len() && before[k] == i;
                assert(now[k] == i);
            } else {
                assert(now[now.len() - 1] == i);
            }
        }
    }
}

/// The normalized list holds the canonical forms of the lines at the kept
/// positions, one for one and in that order.
pub proof fn lemma_normalized_follows_positions(lines: Seq<LineModel>, strategy: Strategy)
    ensures
        normalized(lines, strategy).len() == kept_positions(lines, strategy.keeps_reserved()).len(),
        forall|k: int|
            0 <= k < normalized(lines, strategy).len() ==> #[trigger] normalized(lines, strategy)[k]
                == normalized_line(lines[kept_positions(lines, strategy.keeps_reserved())[k]]),
    decreases lines.len(),
{
    if lines.len() > 0 {
        let shorter = lines.drop_last();
        lemma_normalized_follows_positions(shorter, strategy);
        lemma_kept_positions(shorter, strategy.keeps_reserved());
        let before = kept_positions(shorter, strategy.keeps_reserved());
        assert forall|k: int| 0 <= k < normalized(lines, strategy).len() implies #[trigger] normalized(
            lines,
            strategy,
        )[k] == normalized_line(lines[kept_positions(lines, strategy.keeps_reserved())[k]]) by {
            if k < before.len() {
                assert(normalized(lines, strategy)[k] == normalized(shorter, strategy)[k]);
                assert(lines[before[k]] == shorter[before[k]]);
            }
        }
    }
}

/// The capabilities made from a description are those of its lines that are
/// not reserved, one for one and in the order of the description, whatever
/// the strategy.
pub proof fn lemma_capabilities_follow_positions(lines: Seq<LineModel>, strategy: Strategy)
    ensures
        capabilities(normalized(lines, strategy)).len() == kept_positions(lines, false).len(),
        forall|k: int|
            0 <= k < kept_positions(lines, false).len() ==> #[trigger] capabilities(
                normalized(lines, strategy),
            )[k] == capability_of(normalized_line(lines[kept_positions(lines, false)[k]])),
    decreases lines.len(),
{
    if lines.len() > 0 {
        let shorter = lines.drop_last();
        lemma_capabilities_follow_positions(shorter, strategy);
        lemma_kept_positions(shorter, false);
        let before = kept_positions(shorter, false);
        let last = normalized_line(lines.last());
        if is_kept(lines.last(), strategy) {
            assert(normalized(lines, strategy).drop_last() == normalized(shorter, strategy));
            assert(normalized(lines, strategy).last() == last);
        }
        assert forall|k: int| 0 <= k < kept_positions(lines, false).len() implies #[trigger] capabilities(
            normalized(lines, strategy),
        )[k] == capability_of(normalized_line(lines[kept_positions(lines, false)[k]])) by {
            if k < before.len() {
                assert(capabilities(normalized(lines, strategy))[k] == capabilities(
                    normalized(shorter, strategy),
                )[k]);
                assert(lines[before[k]] == shorter[before[k]]);
            }
        }
    }
}

/// The entry points made from a description are those of its lines that stay
/// under the strategy, one for one and in the order of the description.
pub proof fn lemma_entries_follow_positions(lines: Seq<LineModel>, strategy: Strategy)
    ensures
        entries(normalized(lines, strategy), strategy).len() == kept_positions(
            lines,
            strategy.keeps_reserved(),
        ).len(),
        forall|k: int|
            0 <= k < kept_positions(lines, strategy.keeps_reserved()).len() ==> Some(
                #[trigger] entries(normalized(lines, strategy), strategy)[k],
            ) == entry_of(
                normalized_line(lines[kept_positions(lines, strategy.keeps_reserved())[k]]),
                strategy,
            ),
    decreases lines.len(),
{
    if lines.len() > 0 {
        let shorter = lines.drop_last();
        let keep = strategy.keeps_reserved();
        lemma_entries_follow_positions(shorter, strategy);
        lemma_kept_positions(shorter, keep);
        let before = kept_positions(shorter, keep);
        let last = normalized_line(lines.last());
        if is_kept(lines.last(), strategy) {
            assert(normalized(lines, strategy).drop_last() == normalized(shorter, strategy));
            assert(normalized(lines, strategy).last() == last);
            assert(entry_of(last, strategy) is Some);
        }
        assert forall|k: int| 0 <= k < kept_positions(lines, keep).len() implies Some(
            #[trigger] entries(normalized(lines, strategy), strategy)[k],
        ) == entry_of(normalized_line(lines[kept_positions(lines, keep)[k]]), strategy) by {
            if k < before.len() {
                assert(entries(normalized(lines, strategy), strategy)[k] == entries(
                    normalized(shorter, strategy),
                    strategy,
                )[k]);
                assert(lines[before[k]] == shorter[before[k]]);
            }
        }
    }
}

/// Order is preserved. Under every strategy the capabilities of the contract,
/// the interrupt slots of the table and the entry points come in the order in
/// which the description holds the lines they are made from: each list follows
/// an ascending run of positions in the description.
pub proof fn law_order_preserved(lines: Seq<LineModel>, strategy: Strategy)
    ensures
        ({
            let made = framework(normalized(lines, strategy), strategy);
            let named = kept_positions(lines, false);
            let bound = kept_positions(lines, strategy.keeps_reserved());
            &&& forall|a: int, b: int| 0 <= a < b < named.len() ==> #[trigger] named[a] < #[trigger] named[b]
            &&& forall|a: int, b: int| 0 <= a < b < bound.len() ==> #[trigger] bound[a] < #[trigger] bound[b]
            &&& made.contract.interrupts.len() == named.len()
            &&& forall|k: int|
                0 <= k < named.len() ==> #[trigger] made.contract.interrupts[k] == capability_of(
                    normalized_line(lines[named[k]]),
                )
            &&& strategy.has_table() ==> {
                &&& made.table is Some
                &&& made.table->0.slots.len() == hook_order().len() + named.len()
                &&& forall|k: int|
                    0 <= k < named.len() ==> #[trigger] made.table->0.slots[hook_order().len() + k]
                        == SlotModel::Interrupt(normalized_name(lines[named[k]].name))
            }
            &&& made.vectors.len() == bound.len()
            &&& forall|k: int|
                0 <= k < bound.len() ==> Some(#[trigger] made.vectors[k]) == entry_of(
                    normalized_line(lines[bound[k]]),
                    strategy,
                )
        }),
{
    lemma_kept_positions(lines, false);
    lemma_kept_positions(lines, strategy.keeps_reserved());
    lemma_capabilities_follow_positions(lines, strategy);
    lemma_entries_follow_positions(lines, strategy);
}

/// Reserved lines are left out. A line whose name marks it as reserved is the
/// source of no capability and of no table slot, under any strategy: the
/// capabilities, and with them the interrupt slots, are made from other
/// positions of the description. The line is the source of an entry point
/// exactly where the strategy keeps reserved lines, and that entry point is an
/// empty one.
pub proof fn law_reserved_excluded(lines: Seq<LineModel>, strategy: Strategy, i: int)
    requires
        0 <= i < lines.len(),
        is_reserved_name(lines[i].name),
    ensures
        ({
            let made = framework(normalized(lines, strategy), strategy);
            let named = kept_positions(lines, false);
            let bound = kept_positions(lines, strategy.keeps_reserved());
            &&& made.contract.interrupts.len() == named.len()
            &&& forall|k: int| 0 <= k < named.len() ==> #[trigger] named[k] != i
            &&& made.vectors.len() == bound.len()
            &&& bound.contains(i) <==> strategy.keeps_reserved()
            &&& forall|k: int|
                0 <= k < bound.len() && bound[k] == i ==> (#[trigger] made.vectors[k]).target
                    == TargetModel::Stub
        }),
{
    lemma_kept_positions(lines, false);
    lemma_kept_positions(lines, strategy.keeps_reserved());
    lemma_capabilities_follow_positions(lines, strategy);
    lemma_entries_follow_positions(lines, strategy);
}

/// The table has one slot for each of the six hooks, five lifecycle methods
/// and the readiness predicate, and one for each line of the description
/// that is not reserved.
pub proof fn law_table_cardinality(lines: Seq<LineModel>, strategy: Strategy)
    requires
        strategy.has_table(),
    ensures
        ({
            let made = framework(normalized(lines, strategy), strategy);
            &&& made.table is Some
            &&& made.table->0.slots.len() == 6 + kept_positions(lines, false).len()
            &&& made.table->0.slots.len() == made.contract.hooks.len()
                + made.contract.interrupts.len()
            &&& made.contract.hooks.filter(|hook: Hook| hook.is_lifecycle()).len() == 5
        }),
{
    lemma_capabilities_follow_positions(lines, strategy);
    let hooks = hook_order();
    reveal_with_fuel(Seq::filter, 7);
    assert(hooks.drop_last() == hooks.take(5));
    assert(hooks.take(5).drop_last() == hooks.take(4));
    assert(hooks.take(4).drop_last() == hooks.take(3));
    assert(hooks.take(3).drop_last() == hooks.take(2));
    assert(hooks.take(2).drop_last() == hooks.take(1));
    assert(hooks.take(1).drop_last() == hooks.take(0));
}

/// No two lines of the description sit at the same vector.
pub open spec fn vectors_distinct(lines: Seq<LineModel>) -> bool {
    forall|i: int, j: int|
        0 <= i < j < lines.len() ==> (#[trigger] lines[i]).vector_index != (
        #[trigger] lines[j]).vector_index
}

/// Where reserved lines are kept, every position of the description is kept.
pub proof fn lemma_all_positions_kept(lines: Seq<LineModel>)
    ensures
        kept_positions(lines, true) == Seq::new(lines.len(), |i: int| i),
    decreases lines.len(),
{
    if lines.len() > 0 {
        lemma_all_positions_kept(lines.drop_last());
    }
}

/// One handler for each vector. Where the description gives each of its lines
/// a vector of its own, no two entry points sit at the same vector. Under the
/// strategy that keeps reserved lines every line of the description has its
/// entry point, at its vector and in its place.
pub proof fn law_one_handler_per_vector(lines: Seq<LineModel>, strategy: Strategy)
    requires
        vectors_distinct(lines),
    ensures
        ({
            let made = framework(normalized(lines, strategy), strategy);
            &&& forall|a: int, b: int|
                0 <= a < b < made.vectors.len() ==> (#[trigger] made.vectors[a]).vector_index != (
                #[trigger] made.vectors[b]).vector_index
            &&& strategy.keeps_reserved() ==> {
                &&& made.vectors.len() == lines.len()
                &&& forall|i: int|
                    0 <= i < lines.len() ==> (#[trigger] made.vectors[i]).vector_index
                        == lines[i].vector_index
            }
        }),
{
    let made = framework(normalized(lines, strategy), strategy);
    let bound = kept_positions(lines, strategy.keeps_reserved());
    lemma_kept_positions(lines, strategy.keeps_reserved());
    lemma_entries_follow_positions(lines, strategy);
    assert forall|k: int| 0 <= k < made.vectors.len() implies (#[trigger] made.vectors[k]).vector_index
        == lines[bound[k]].vector_index by {
        assert(Some(made.vectors[k]) == entry_of(normalized_line(lines[bound[k]]), strategy));
    }
    assert forall|a: int, b: int| 0 <= a < b < made.vectors.len() implies (
    #[trigger] made.vectors[a]).vector_index != (#[trigger] made.vectors[b]).vector_index by {
        assert(bound[a] < bound[b]);
        assert(lines[bound[a]].vector_index != lines[bound[b]].vector_index);
    }
    if strategy.keeps_reserved() {
        lemma_all_positions_kept(lines);
    }
}

/// Every capability is bound once. The entry points that call a capability
/// are the bindings of the capabilities, one for one and in their order: each
/// sits at the vector of its capability and reaches it the way the strategy
/// has it. A strategy that keeps no reserved lines has no other entry points.
pub proof fn law_one_entry_per_capability(interrupts: Seq<NormalizedModel>, strategy: Strategy)
    ensures
        entries(interrupts, strategy).filter(|entry: EntryModel| is_call(entry)) == Seq::new(
            capabilities(interrupts).len(),
            |k: int| binding_of(capabilities(interrupts)[k], strategy),
        ),
        !strategy.keeps_reserved() ==> forall|k: int|
            0 <= k < entries(interrupts, strategy).len() ==> is_call(
                #[trigger] entries(interrupts, strategy)[k],
            ),
    decreases interrupts.len(),
{
    reveal(Seq::filter);
    if interrupts.len() > 0 {
        let shorter = interrupts.drop_last();
        law_one_entry_per_capability(shorter, strategy);
        let before = entries(shorter, strategy);
        match entry_of(interrupts.last(), strategy) {
            Some(entry) => {
                assert(before.push(entry).drop_last() == before);
            },
            None => {},
        }
        if !strategy.keeps_reserved() {
            assert forall|k: int| 0 <= k < entries(interrupts, strategy).len() implies is_call(
                #[trigger] entries(interrupts, strategy)[k],
            ) by {
                if k < before.len() {
                    assert(entries(interrupts, strategy)[k] == before[k]);
                }
            }
        }
    }
}

/// A framework made from interrupts whose capabilities have distinct names
/// is well formed.
pub proof fn law_framework_fits(interrupts: Seq<NormalizedModel>, strategy: Strategy)
    requires
        names_distinct(capabilities(interrupts)),
    ensures
        framework(interrupts, strategy).wf(),
{
    law_one_entry_per_capability(interrupts, strategy);
}

/// One implementation where nothing is erased. The contract admits a single
/// implementation per build under the static strategy and under no other; it
/// is then, and only then, that the framework has no table, that the handle
/// holds nothing but the data pointer, and that every entry point which calls
/// a capability calls it directly. Under the other strategies every entry
/// point goes through the handle.
pub proof fn law_single_implementation(interrupts: Seq<NormalizedModel>, strategy: Strategy)
    ensures
        ({
            let made = framework(interrupts, strategy);
            let single = made.contract.single_implementation;
            &&& single <==> strategy == Strategy::Static
            &&& single <==> made.table is None
            &&& single <==> made.handle == RuntimeHandle::DataOnly
            &&& forall|k: int|
                0 <= k < made.vectors.len() ==> (single <==> !((
                #[trigger] made.vectors[k]).target is ThroughHandle))
        }),
    decreases interrupts.len(),
{
    if interrupts.len() > 0 {
        let shorter = interrupts.drop_last();
        law_single_implementation(shorter, strategy);
        let before = entries(shorter, strategy);
        let now = entries(interrupts, strategy);
        assert forall|k: int| 0 <= k < now.len() implies (strategy == Strategy::Static <==> !((
        #[trigger] now[k]).target is ThroughHandle)) by {
            if k < before.len() {
                assert(now[k] == before[k]);
                assert(framework(shorter, strategy).vectors[k] == before[k]);
            }
        }
    }
}

} // verus!
