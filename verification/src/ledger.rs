//! The text of a result: one line per scored pipeline, as it is shown and
//! as it is appended to the ledger.

use vstd::prelude::*;
use vstd::string::StringExecFns;

use crate::decimal::{decimal, padded, push_decimal, push_padded};
use crate::ratio::ComparativeScore;
use crate::strategy::Pipeline;

verus! {

/// How many billionths make one step of the last decimal place shown.
pub const DISPLAY_STEP: u128 = 10_000;

/// How many steps of the last decimal place shown make one.
pub const DISPLAY_UNIT: u128 = 100_000;

/// The number of decimal places shown.
pub const DISPLAY_PLACES: u8 = 5;

/// A score of so many billionths as text: to five decimal places, rounded
/// to the nearest and away from zero at the half, with a minus sign before
/// a score below zero.
pub open spec fn score_text(score: int) -> Seq<char> {
    let magnitude = if score < 0 {
        -score
    } else {
        score
    };
    let rounded = (magnitude + DISPLAY_STEP / 2) / (DISPLAY_STEP as int);
    let sign = if score < 0 {
        seq!['-']
    } else {
        Seq::empty()
    };
    sign + decimal((rounded / (DISPLAY_UNIT as int)) as nat) + seq!['.'] + padded(
        (rounded % (DISPLAY_UNIT as int)) as nat,
        DISPLAY_PLACES as nat,
    )
}

/// The line that reports `score` for `pipeline`: the label, the name of the
/// serialization strategy, the descriptor of the compression strategy, and
/// the two scores.
pub open spec fn line_text(label: Seq<char>, pipeline: Pipeline, score: ComparativeScore) -> Seq<
    char,
> {
    label + pipeline.serialization.name_text() + ", "@ + pipeline.compression.descriptor_text()
        + " => ccr: "@ + score_text(score.ccr as int) + "; ctr: "@ + score_text(score.ctr as int)
}

/// The line as the ledger holds it: ended by a line break.
pub open spec fn entry_text(label: Seq<char>, pipeline: Pipeline, score: ComparativeScore) -> Seq<
    char,
> {
    line_text(label, pipeline, score) + seq!['\n']
}

/// Appends `score` as text to `out`.
pub fn push_score(out: &mut String, score: i128)
    ensures
        final(out)@ == old(out)@ + score_text(score as int),
{
    let negative = score < 0;
    let magnitude: u128 = if negative {
        (-(score + 1)) as u128 + 1
    } else {
        score as u128
    };
    let rounded: u128 = (magnitude + DISPLAY_STEP / 2) / DISPLAY_STEP;
    let ghost sign = if negative {
        seq!['-']
    } else {
        Seq::<char>::empty()
    };
    if negative {
        proof {
            reveal_strlit("-");
        }
        out.append("-");
        assert(out@ =~= old(out)@ + sign);
    } else {
        assert(out@ =~= old(out)@ + sign);
    }
    push_decimal(out, rounded / DISPLAY_UNIT);
    proof {
        reveal_strlit(".");
    }
    out.append(".");
    push_padded(out, rounded % DISPLAY_UNIT, DISPLAY_PLACES);
    assert(out@ =~= old(out)@ + score_text(score as int));
}

/// The line that reports `score` for `pipeline`, after `label`.
pub fn ledger_line(label: &str, pipeline: &Pipeline, score: &ComparativeScore) -> (line: String)
    ensures
        line@ == line_text(label@, *pipeline, *score),
{
    let mut line = String::from_str(label);
    line.append(pipeline.serialization.name());
    line.append(", ");
    let descriptor = pipeline.compression.descriptor();
    line.append(descriptor.as_str());
    line.append(" => ccr: ");
    push_score(&mut line, score.ccr);
    line.append("; ctr: ");
    push_score(&mut line, score.ctr);
    line
}

/// The line that reports `score` for `pipeline`, ended by a line break:
/// what one result adds to the ledger.
pub fn ledger_entry(label: &str, pipeline: &Pipeline, score: &ComparativeScore) -> (entry: String)
    ensures
        entry@ == entry_text(label@, *pipeline, *score),
{
    let mut entry = ledger_line(label, pipeline, score);
    proof {
        reveal_strlit("\n");
    }
    entry.append("\n");
    assert(entry@ =~= entry_text(label@, *pipeline, *score));
    entry
}

/// The number of line breaks in `text`: the number of lines of a ledger
/// whose every line is ended by one.
pub open spec fn line_breaks(text: Seq<char>) -> nat
    decreases text.len(),
{
    if text.len() == 0 {
        0
    } else {
        line_breaks(text.drop_last()) + if text.last() == '\n' {
            1nat
        } else {
            0nat
        }
    }
}

/// Whether `text` holds no line break.
pub open spec fn unbroken(text: Seq<char>) -> bool {
    forall|i: int| 0 <= i < text.len() ==> #[trigger] text[i] != '\n'
}

/// The line breaks of two texts put together are those of the one and
/// those of the other.
pub proof fn lemma_line_breaks_concat(first: Seq<char>, second: Seq<char>)
    ensures
        line_breaks(first + second) == line_breaks(first) + line_breaks(second),
    decreases second.len(),
{
    if second.len() == 0 {
        assert(first + second =~= first);
    } else {
        lemma_line_breaks_concat(first, second.drop_last());
        assert((first + second).drop_last() =~= first + second.drop_last());
    }
}

/// A text without a line break counts none.
pub proof fn lemma_unbroken_counts_none(text: Seq<char>)
    requires
        unbroken(text),
    ensures
        line_breaks(text) == 0,
    decreases text.len(),
{
    if text.len() > 0 {
        assert(text.last() == text[text.len() - 1]);
        assert forall|i: int| 0 <= i < text.drop_last().len() implies #[trigger] text.drop_last()[i]
            != '\n' by {
            assert(text.drop_last()[i] == text[i]);
        }
        lemma_unbroken_counts_none(text.drop_last());
    }
}

/// A number in decimal holds no line break.
proof fn lemma_decimal_unbroken(n: nat)
    ensures
        unbroken(decimal(n)),
    decreases n,
{
    if n >= 10 {
        lemma_decimal_unbroken(n / 10);
    }
}

/// Digits with leading zeros hold no line break.
proof fn lemma_padded_unbroken(n: nat, width: nat)
    ensures
        unbroken(padded(n, width)),
    decreases width,
{
    if width > 0 {
        lemma_padded_unbroken(n / 10, (width - 1) as nat);
    }
}

/// A score as text holds no line break.
proof fn lemma_score_text_unbroken(score: int)
    ensures
        unbroken(score_text(score)),
{
    let magnitude = if score < 0 {
        -score
    } else {
        score
    };
    let rounded = (magnitude + DISPLAY_STEP / 2) / (DISPLAY_STEP as int);
    lemma_decimal_unbroken((rounded / (DISPLAY_UNIT as int)) as nat);
    lemma_padded_unbroken((rounded % (DISPLAY_UNIT as int)) as nat, DISPLAY_PLACES as nat);
}

/// The names that a pipeline is reported under hold no line break.
proof fn lemma_names_unbroken(pipeline: Pipeline)
    ensures
        unbroken(pipeline.serialization.name_text()),
        unbroken(pipeline.compression.descriptor_text()),
{
    reveal_strlit("Json");
    reveal_strlit("Bitcode");
    reveal_strlit("Flatbuffers");
    reveal_strlit("Gzip");
    reveal_strlit("Zstd");
    reveal_strlit("(");
    reveal_strlit(")");
    lemma_decimal_unbroken(pipeline.compression.level_of() as nat);
}

/// A result line holds no line break unless its label does.
pub proof fn lemma_line_is_unbroken(label: Seq<char>, pipeline: Pipeline, score: ComparativeScore)
    requires
        unbroken(label),
    ensures
        unbroken(line_text(label, pipeline, score)),
{
    reveal_strlit(", ");
    reveal_strlit(" => ccr: ");
    reveal_strlit("; ctr: ");
    lemma_names_unbroken(pipeline);
    lemma_score_text_unbroken(score.ccr as int);
    lemma_score_text_unbroken(score.ctr as int);
}

/// One result is one line of the ledger: under a label without a line
/// break, its entry holds exactly one, at its end.
pub proof fn lemma_entry_is_one_line(label: Seq<char>, pipeline: Pipeline, score: ComparativeScore)
    requires
        unbroken(label),
    ensures
        line_breaks(entry_text(label, pipeline, score)) == 1,
        entry_text(label, pipeline, score).last() == '\n',
{
    let line = line_text(label, pipeline, score);
    let ending = seq!['\n'];
    lemma_line_is_unbroken(label, pipeline, score);
    lemma_unbroken_counts_none(line);
    lemma_line_breaks_concat(line, ending);
    assert(ending.drop_last() =~= Seq::<char>::empty());
    assert(line_breaks(ending) == 1) by {
        reveal_with_fuel(line_breaks, 2);
    }
}

/// The ledger only grows: a result appended to it leaves what it held
/// before in place, comes after it, and makes it one line longer.
pub proof fn lemma_append_adds_one_line(
    ledger: Seq<char>,
    label: Seq<char>,
    pipeline: Pipeline,
    score: ComparativeScore,
)
    requires
        unbroken(label),
    ensures
        ({
            let entry = entry_text(label, pipeline, score);
            let grown = ledger + entry;
            &&& grown.subrange(0, ledger.len() as int) == ledger
            &&& grown.subrange(ledger.len() as int, grown.len() as int) == entry
            &&& line_breaks(grown) == line_breaks(ledger) + 1
        }),
{
    let entry = entry_text(label, pipeline, score);
    let grown = ledger + entry;
    lemma_entry_is_one_line(label, pipeline, score);
    lemma_line_breaks_concat(ledger, entry);
    assert(grown.subrange(0, ledger.len() as int) =~= ledger);
    assert(grown.subrange(ledger.len() as int, grown.len() as int) =~= entry);
}

/// Two results written one after the other to an empty ledger make a
/// ledger of exactly two lines, the first result's before the second's.
pub proof fn lemma_two_results_two_lines(
    first_label: Seq<char>,
    first_pipeline: Pipeline,
    first_score: ComparativeScore,
    second_label: Seq<char>,
    second_pipeline: Pipeline,
    second_score: ComparativeScore,
)
    requires
        unbroken(first_label),
        unbroken(second_label),
    ensures
        ({
            let first = entry_text(first_label, first_pipeline, first_score);
            let second = entry_text(second_label, second_pipeline, second_score);
            let ledger = Seq::<char>::empty() + first + second;
            &&& line_breaks(ledger) == 2
            &&& ledger.subrange(0, first.len() as int) == first
            &&& ledger.subrange(first.len() as int, ledger.len() as int) == second
        }),
{
    let first = entry_text(first_label, first_pipeline, first_score);
    let empty = Seq::<char>::empty();
    lemma_append_adds_one_line(empty, first_label, first_pipeline, first_score);
    lemma_append_adds_one_line(empty + first, second_label, second_pipeline, second_score);
    assert(empty + first =~= first);
}

/// The label is all that stands before the name of the serialization
/// strategy: a line is its label followed by the line of the empty label,
/// and the line of the empty label begins with that name.
pub proof fn lemma_line_begins_with_label(
    label: Seq<char>,
    pipeline: Pipeline,
    score: ComparativeScore,
)
    ensures
        line_text(label, pipeline, score) == label + line_text(Seq::empty(), pipeline, score),
        ({
            let name = pipeline.serialization.name_text();
            let bare = line_text(Seq::empty(), pipeline, score);
            name.len() <= bare.len() && bare.subrange(0, name.len() as int) == name
        }),
{
    let name = pipeline.serialization.name_text();
    let bare = line_text(Seq::empty(), pipeline, score);
    assert(line_text(label, pipeline, score) =~= label + bare);
    assert(bare.subrange(0, name.len() as int) =~= name);
}

} // verus!
