//! What a report says of a document that has changed.

use vstd::prelude::*;

use crate::drift::{current_keys, report_text, DriftReport};
use crate::edit::{lemma_filter_from, lemma_filter_keeps};
use crate::model::{all_endpoints, GroupView};
use crate::selection::all_keys;
use crate::selection_laws::{lemma_names_operation, names_operation};
use crate::text::{decimal, text_lt, texts};

verus! {

/// A report names exactly what was deselected and is gone, what was known, not deselected, and is
/// gone, and what was not known and is there, as the operations of the groups say; the last in the
/// order of their characters, and no text of the last two twice. Where it is not known what there
/// was, nothing is named but what was deselected.
pub proof fn law_report_names_what_has_changed(
    report: DriftReport,
    saved: Seq<Seq<char>>,
    known: Option<Seq<Seq<char>>>,
    groups: Seq<GroupView>,
    key: Seq<char>,
)
    requires
        report.tells(saved, known, current_keys(groups)),
    ensures
        texts(report.removed@).contains(key) <==> saved.contains(key) && !names_operation(
            groups,
            key,
            false,
        ),
        known matches Some(keys) ==> {
            &&& texts(report.removed_selected@).contains(key) <==> keys.contains(key)
                && !names_operation(groups, key, false) && !saved.contains(key)
            &&& texts(report.new_ops@).contains(key) <==> names_operation(groups, key, false)
                && !keys.contains(key)
        },
        known is None ==> report.removed_selected@.len() == 0 && report.new_ops@.len() == 0,
        texts(report.removed_selected@).no_duplicates(),
        forall|i: int, j: int|
            0 <= i < j < report.new_ops@.len() ==> text_lt(
                (#[trigger] report.new_ops@[i])@,
                (#[trigger] report.new_ops@[j])@,
            ),
{
    let current = current_keys(groups);
    let list = all_keys(all_endpoints(groups));
    lemma_names_operation(groups, key);
    assert(current.contains(key) == list.contains(key));
    let absent = |k: Seq<char>| !current.contains(k);
    lemma_filter_from(saved, absent);
    let gone = texts(report.removed@);
    if gone.contains(key) {
        let i = choose|i: int| 0 <= i < gone.len() && gone[i] == key;
        assert(absent(saved.filter(absent)[i]));
    }
    if saved.contains(key) && !current.contains(key) {
        let i = choose|i: int| 0 <= i < saved.len() && saved[i] == key;
        lemma_filter_keeps(saved, absent, i);
    }
    match known {
        Some(keys) => {
            assert(keys.to_set().contains(key) == keys.contains(key));
            assert(saved.to_set().contains(key) == saved.contains(key));
            assert(texts(report.removed_selected@).to_set().contains(key) == texts(
                report.removed_selected@,
            ).contains(key));
            assert(texts(report.new_ops@).to_set().contains(key) == texts(report.new_ops@).contains(
                key,
            ));
        },
        None => {},
    }
    assert forall|i: int, j: int| 0 <= i < j < report.new_ops@.len() implies text_lt(
        (#[trigger] report.new_ops@[i])@,
        (#[trigger] report.new_ops@[j])@,
    ) by {
        assert(texts(report.new_ops@)[i] == report.new_ops@[i]@);
        assert(texts(report.new_ops@)[j] == report.new_ops@[j]@);
    }
}

/// The number of lines of a part of a report: none without items, otherwise a heading and a line for
/// each.
pub open spec fn line_count(items: nat) -> nat {
    if items == 0 {
        0
    } else {
        items + 1
    }
}

/// A report is printed in three parts, one for each of its lists, each with a heading that says how
/// many there are and a line for each of them in order; a part without items is not printed.
pub proof fn law_report_is_printed_in_three_parts(report: DriftReport, i: int)
    ensures
        ({
            let lines = report_text(report);
            let a = report.removed@.len();
            let b = report.removed_selected@.len();
            let c = report.new_ops@.len();
            let second = line_count(a);
            let third = second + line_count(b);
            &&& lines.len() == third + line_count(c)
            &&& a > 0 ==> lines[0] == "Warning: "@ + decimal(a)
                + " previously deselected operation(s) no longer exist in the spec:"@
            &&& b > 0 ==> lines[second as int] == "Warning: "@ + decimal(b)
                + " previously selected operation(s) no longer exist in the spec:"@
            &&& c > 0 ==> lines[third as int] == "Info: "@ + decimal(c)
                + " new operation(s) found in the spec (auto-selected):"@
            &&& 0 <= i < a ==> lines[1 + i] == "  - "@ + report.removed@[i]@
            &&& 0 <= i < b ==> lines[second + 1 + i] == "  - "@ + report.removed_selected@[i]@
            &&& 0 <= i < c ==> lines[third + 1 + i] == "  + "@ + report.new_ops@[i]@
        }),
{
}

proof fn lemma_filter_positions(items: Seq<Seq<char>>, pred: spec_fn(Seq<char>) -> bool) -> (at: Seq<
    int,
>)
    ensures
        items.filter(pred).len() == at.len(),
        forall|i: int|
            0 <= i < at.len() ==> 0 <= #[trigger] at[i] < items.len() && items.filter(pred)[i]
                == items[at[i]],
        forall|i: int, j: int| 0 <= i < j < at.len() ==> #[trigger] at[i] < #[trigger] at[j],
        forall|k: int| 0 <= k < items.len() && pred(#[trigger] items[k]) ==> at.contains(k),
    decreases items.len(),
{
    reveal(Seq::filter);
    if items.len() == 0 {
        Seq::<int>::empty()
    } else {
        let front = items.drop_last();
        let before = lemma_filter_positions(front, pred);
        let last = items.len() - 1;
        let at = if pred(items.last()) {
            before.push(last)
        } else {
            before
        };
        assert forall|i: int| 0 <= i < at.len() implies 0 <= #[trigger] at[i] < items.len()
            && items.filter(pred)[i] == items[at[i]] by {
            if i < before.len() {
                assert(at[i] == before[i]);
                assert(front.filter(pred)[i] == front[before[i]]);
            }
        }
        assert forall|k: int| 0 <= k < items.len() && pred(
            #[trigger] items[k],
        ) implies at.contains(k) by {
            if k < last {
                assert(pred(front[k]));
                let j = choose|j: int| 0 <= j < before.len() && before[j] == k;
                assert(at[j] == k);
            } else {
                assert(at[before.len() as int] == k);
            }
        }
        at
    }
}

/// What was deselected and is gone is named as often as it was saved, and in the order in which it
/// was saved: the positions lead to it in ascending order, and to all of it.
pub proof fn law_report_keeps_the_saved_order(
    report: DriftReport,
    saved: Seq<Seq<char>>,
    known: Option<Seq<Seq<char>>>,
    groups: Seq<GroupView>,
) -> (at: Seq<int>)
    requires
        report.tells(saved, known, current_keys(groups)),
    ensures
        at.len() == report.removed@.len(),
        forall|i: int|
            0 <= i < at.len() ==> 0 <= #[trigger] at[i] < saved.len() && report.removed@[i]@
                == saved[at[i]],
        forall|i: int, j: int| 0 <= i < j < at.len() ==> #[trigger] at[i] < #[trigger] at[j],
        forall|k: int|
            0 <= k < saved.len() && !names_operation(groups, #[trigger] saved[k], false)
                ==> at.contains(k),
{
    let current = current_keys(groups);
    let list = all_keys(all_endpoints(groups));
    let absent = |k: Seq<char>| !current.contains(k);
    let at = lemma_filter_positions(saved, absent);
    assert forall|i: int| 0 <= i < at.len() implies 0 <= #[trigger] at[i] < saved.len()
        && report.removed@[i]@ == saved[at[i]] by {
        assert(texts(report.removed@)[i] == report.removed@[i]@);
    }
    assert forall|k: int|
        0 <= k < saved.len() && !names_operation(
            groups,
            #[trigger] saved[k],
            false,
        ) implies at.contains(k) by {
        lemma_names_operation(groups, saved[k]);
        assert(current.contains(saved[k]) == list.contains(saved[k]));
        assert(absent(saved[k]));
    }
    at
}

} // verus!
