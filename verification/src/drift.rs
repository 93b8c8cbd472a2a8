//! How a document differs from what it was when its selection was saved.

use vstd::prelude::*;

use crate::edit::lemma_filter_push;
use crate::model::{all_endpoints, groups_view, GroupView, PathGroup};
use crate::selection::{all_keys, list_operations, restore_groups, SelectionDb};
use crate::text::{
    decimal, decimal_text, lemma_text_lt_total, lemma_text_lt_transitive, text_before, text_lt,
    texts, with_tail,
};
use crate::text_set::{lemma_push_to_set, set_of, TextSet};

verus! {

/// The operations that have gone or come since the selection was saved.
pub struct DriftReport {
    /// Operations that were deselected and are no longer in the document.
    pub removed: Vec<String>,
    /// Operations that were selected and are no longer in the document.
    pub removed_selected: Vec<String>,
    /// Operations that were not in the document.
    pub new_ops: Vec<String>,
}

/// The texts come one after the other, none twice.
pub open spec fn ascends(list: Seq<Seq<char>>) -> bool {
    forall|i: int, j: int|
        0 <= i < j < list.len() ==> text_lt(#[trigger] list[i], #[trigger] list[j])
}

impl DriftReport {
    /// The report tells how `current` differs from what was saved: the operations that were
    /// deselected, and all operations that were known, if they are.
    pub open spec fn tells(
        &self,
        saved: Seq<Seq<char>>,
        known: Option<Seq<Seq<char>>>,
        current: Set<Seq<char>>,
    ) -> bool {
        &&& texts(self.removed@) == saved.filter(|key: Seq<char>| !current.contains(key))
        &&& texts(self.removed_selected@).no_duplicates()
        &&& ascends(texts(self.new_ops@))
        &&& match known {
            Some(keys) => {
                &&& texts(self.removed_selected@).to_set() == keys.to_set().difference(
                    current,
                ).difference(saved.to_set())
                &&& texts(self.new_ops@).to_set() == current.difference(keys.to_set())
            },
            None => {
                &&& self.removed_selected@.len() == 0
                &&& self.new_ops@.len() == 0
            },
        }
    }
}

/// The keys of the operations of the groups.
pub open spec fn current_keys(groups: Seq<GroupView>) -> Set<Seq<char>> {
    all_keys(all_endpoints(groups)).to_set()
}

/// A heading and a line for each item; nothing if there are no items.
pub open spec fn section(
    before_count: Seq<char>,
    after_count: Seq<char>,
    bullet: Seq<char>,
    items: Seq<Seq<char>>,
) -> Seq<Seq<char>> {
    if items.len() == 0 {
        Seq::empty()
    } else {
        seq![before_count + decimal(items.len()) + after_count] + items.map_values(
            |item: Seq<char>| bullet + item,
        )
    }
}

/// The lines in which a report is printed.
pub open spec fn report_text(report: DriftReport) -> Seq<Seq<char>> {
    section(
        "Warning: "@,
        " previously deselected operation(s) no longer exist in the spec:"@,
        "  - "@,
        texts(report.removed@),
    ) + section(
        "Warning: "@,
        " previously selected operation(s) no longer exist in the spec:"@,
        "  - "@,
        texts(report.removed_selected@),
    ) + section(
        "Info: "@,
        " new operation(s) found in the spec (auto-selected):"@,
        "  + "@,
        texts(report.new_ops@),
    )
}

/// Put a text into an ascending list at its place.
fn insert_text(list: &mut Vec<String>, s: String)
    requires
        ascends(texts(old(list)@)),
        !texts(old(list)@).contains(s@),
    ensures
        ascends(texts(final(list)@)),
        texts(final(list)@).to_set() == texts(old(list)@).to_set().insert(s@),
{
    let ghost before = texts(list@);
    let ghost text = s@;
    let mut i: usize = list.len();
    while i > 0 && text_before(s.as_str(), list[i - 1].as_str())
        invariant
            i <= list.len(),
            text == s@,
            before == texts(list@),
            forall|j: int| i <= j < before.len() ==> text_lt(text, #[trigger] before[j]),
        decreases i,
    {
        proof {
            assert(before[i - 1] == list@[i - 1]@);
        }
        i -= 1;
    }
    list.insert(i, s);
    proof {
        let after = texts(list@);
        assert(after =~= before.take(i as int).push(text) + before.skip(i as int));
        assert forall|j: int| 0 <= j < i implies text_lt(#[trigger] before[j], text) by {
            let last = before[i - 1];
            lemma_text_lt_total(text, last);
            if last == text {
                assert(before.contains(text));
            }
            assert(text_lt(last, text));
            if j < i - 1 {
                lemma_text_lt_transitive(before[j], last, text);
            }
        }
        assert forall|a: int, b: int| 0 <= a < b < after.len() implies text_lt(
            #[trigger] after[a],
            #[trigger] after[b],
        ) by {
            let x = if a < i {
                a
            } else {
                a - 1
            };
            let y = if b < i {
                b
            } else {
                b - 1
            };
            if a != i && b != i {
                assert(after[a] == before[x] && after[b] == before[y]);
            } else if b == i {
                assert(after[a] == before[a]);
            } else {
                assert(after[b] == before[y]);
            }
        }
        assert forall|t: Seq<char>| after.to_set().contains(t) == before.to_set().insert(
            text,
        ).contains(t) by {
            if before.contains(t) {
                let k = choose|k: int| 0 <= k < before.len() && before[k] == t;
                let l = if k < i {
                    k
                } else {
                    k + 1
                };
                assert(after[l] == t);
            }
            if t == text {
                assert(after[i as int] == t);
            }
            if after.contains(t) && t != text {
                let l = choose|l: int| 0 <= l < after.len() && after[l] == t;
                let k = if l < i {
                    l
                } else {
                    l - 1
                };
                assert(before[k] == t);
            }
        }
        assert(after.to_set() =~= before.to_set().insert(text));
    }
}

/// The keys of a list that are not in the set, in order.
fn missing(list: &Vec<String>, present: &TextSet) -> (r: Vec<String>)
    ensures
        texts(r@) == texts(list@).filter(|key: Seq<char>| !present@.contains(key)),
{
    let ghost keys = texts(list@);
    let ghost absent = |key: Seq<char>| !present@.contains(key);
    let mut r: Vec<String> = Vec::new();
    proof {
        reveal(Seq::filter);
        assert(texts(r@) =~= keys.take(0).filter(absent));
    }
    for i in 0..list.len()
        invariant
            keys == texts(list@),
            absent == (|key: Seq<char>| !present@.contains(key)),
            texts(r@) == keys.take(i as int).filter(absent),
    {
        let ghost before = texts(r@);
        proof {
            assert(keys.take(i + 1) =~= keys.take(i as int).push(keys[i as int]));
            lemma_filter_push(keys.take(i as int), absent, keys[i as int]);
        }
        if !present.contains(list[i].as_str()) {
            r.push(list[i].clone());
            proof {
                assert(texts(r@) =~= before.push(keys[i as int]));
            }
        }
    }
    proof {
        assert(keys.take(keys.len() as int) =~= keys);
    }
    r
}

/// The members of `set` that are in neither of the others, each once.
fn in_neither(set: &TextSet, first: &TextSet, second: &TextSet) -> (r: Vec<String>)
    requires
        set.well_formed(),
    ensures
        texts(r@).no_duplicates(),
        texts(r@).to_set() == set@.difference(first@).difference(second@),
{
    let ghost order = set.order();
    let mut r: Vec<String> = Vec::new();
    let n = set.len();
    for i in 0..n
        invariant
            n == order.len(),
            order == set.order(),
            order.no_duplicates(),
            texts(r@).no_duplicates(),
            forall|t: Seq<char>| #[trigger]
                texts(r@).contains(t) <==> order.take(i as int).contains(t) && !first@.contains(t)
                    && !second@.contains(t),
    {
        let text = set.nth(i);
        let ghost before = texts(r@);
        proof {
            assert(order.take(i + 1) =~= order.take(i as int).push(order[i as int]));
            assert(!order.take(i as int).contains(order[i as int])) by {
                if order.take(i as int).contains(order[i as int]) {
                    let k = choose|k: int|
                        0 <= k < i && order.take(i as int)[k] == order[i as int];
                    assert(order[k] == order[i as int]);
                }
            }
        }
        if !first.contains(text) && !second.contains(text) {
            r.push(text.to_owned());
            proof {
                assert(texts(r@) =~= before.push(text@));
                assert(!before.contains(text@));
                assert forall|a: int, b: int|
                    0 <= a < texts(r@).len() && 0 <= b < texts(r@).len() && a != b implies texts(
                    r@,
                )[a] != texts(r@)[b] by {
                    if a < before.len() && b < before.len() {
                        assert(before[a] != before[b]);
                    } else if a < before.len() {
                        assert(before.contains(before[a]));
                    } else {
                        assert(before.contains(before[b]));
                    }
                }
            }
        }
        proof {
            assert forall|t: Seq<char>| #[trigger] texts(r@).contains(t) <==> order.take(
                i + 1,
            ).contains(t) && !first@.contains(t) && !second@.contains(t) by {
                lemma_push_contains(order.take(i as int), order[i as int], t);
                lemma_push_contains(before, order[i as int], t);
            }
        }
    }
    proof {
        assert(order.take(order.len() as int) =~= order);
        assert forall|t: Seq<char>| texts(r@).to_set().contains(t) <==> set@.difference(
            first@,
        ).difference(second@).contains(t) by {
            assert(texts(r@).to_set().contains(t) == texts(r@).contains(t));
            assert(order.to_set().contains(t) == order.contains(t));
        }
        assert(texts(r@).to_set() =~= set@.difference(first@).difference(second@));
    }
    r
}

proof fn lemma_push_contains(list: Seq<Seq<char>>, s: Seq<char>, t: Seq<char>)
    ensures
        list.push(s).contains(t) <==> list.contains(t) || t == s,
{
    lemma_push_to_set(list, s);
    assert(list.push(s).to_set().contains(t) == list.push(s).contains(t));
    assert(list.to_set().contains(t) == list.contains(t));
}

/// The members of `set` that are not in the other, in their order.
fn sorted_difference(set: &TextSet, other: &TextSet) -> (r: Vec<String>)
    requires
        set.well_formed(),
    ensures
        ascends(texts(r@)),
        texts(r@).to_set() == set@.difference(other@),
{
    let found = in_neither(set, other, other);
    let ghost keys = texts(found@);
    let mut r: Vec<String> = Vec::new();
    proof {
        assert(texts(r@).to_set() =~= keys.take(0).to_set());
    }
    for i in 0..found.len()
        invariant
            keys == texts(found@),
            keys.no_duplicates(),
            ascends(texts(r@)),
            texts(r@).to_set() == keys.take(i as int).to_set(),
    {
        proof {
            assert(keys.take(i + 1) =~= keys.take(i as int).push(keys[i as int]));
            lemma_push_to_set(keys.take(i as int), keys[i as int]);
            if texts(r@).contains(keys[i as int]) {
                assert(texts(r@).to_set().contains(keys[i as int]));
                assert(keys.take(i as int).contains(keys[i as int]));
                let k = choose|k: int| 0 <= k < i && keys.take(i as int)[k] == keys[i as int];
                assert(keys[k] == keys[i as int]);
            }
        }
        insert_text(&mut r, found[i].clone());
    }
    proof {
        assert(keys.take(keys.len() as int) =~= keys);
        assert(set@.difference(other@).difference(other@) =~= set@.difference(other@));
    }
    r
}

/// How the current operations differ from what was saved.
pub fn compare_with_saved(
    saved: &Vec<String>,
    known: Option<&Vec<String>>,
    current: &TextSet,
) -> (r: DriftReport)
    requires
        current.well_formed(),
    ensures
        r.tells(
            texts(saved@),
            match known {
                Some(keys) => Some(texts(keys@)),
                None => None,
            },
            current@,
        ),
{
    let removed = missing(saved, current);
    match known {
        Some(keys) => {
            let previous = set_of(keys);
            let deselected = set_of(saved);
            DriftReport {
                removed,
                removed_selected: in_neither(&previous, current, &deselected),
                new_ops: sorted_difference(current, &previous),
            }
        },
        None => {
            let r = DriftReport { removed, removed_selected: Vec::new(), new_ops: Vec::new() };
            proof {
                assert(texts(r.removed_selected@).len() == 0);
                assert(texts(r.new_ops@).len() == 0);
            }
            r
        },
    }
}

/// Apply a saved selection to groups, detecting how the document has changed. `None` if nothing
/// is saved as deselected for the source.
pub fn apply_saved_selection_cli(
    groups: &mut Vec<PathGroup>,
    db: &SelectionDb,
    source_key: &str,
) -> (r: Option<DriftReport>)
    requires
        db.well_formed(),
    ensures
        r is Some <==> db@.deselected.contains_key(source_key@),
        groups_view(final(groups)@) == db@.applied(source_key@, groups_view(old(groups)@)),
        r matches Some(report) ==> report.tells(
            db@.deselected_in(source_key@),
            db@.known_in(source_key@),
            current_keys(groups_view(old(groups)@)),
        ),
{
    match db.deselected.get(source_key) {
        Some(saved) => {
            let current = set_of(&list_operations(groups));
            let report = compare_with_saved(saved, db.all_paths.get(source_key), &current);
            restore_groups(groups, &set_of(saved));
            Some(report)
        },
        None => None,
    }
}

/// Add a heading and a line for each item.
fn push_section(
    lines: &mut Vec<String>,
    before_count: &str,
    after_count: &str,
    bullet: &str,
    items: &Vec<String>,
)
    ensures
        texts(final(lines)@) == texts(old(lines)@) + section(
            before_count@,
            after_count@,
            bullet@,
            texts(items@),
        ),
{
    if items.len() == 0 {
        proof {
            assert(texts(lines@) =~= texts(lines@) + Seq::<Seq<char>>::empty());
        }
        return ;
    }
    let ghost start = texts(lines@);
    let ghost make = |item: Seq<char>| bullet@ + item;
    let mut heading = with_tail(before_count, decimal_text(items.len() as u128).as_str());
    heading.append(after_count);
    let ghost head = heading@;
    lines.push(heading);
    proof {
        assert(texts(lines@) =~= start + (seq![head] + texts(items@).take(0).map_values(make)));
    }
    for i in 0..items.len()
        invariant
            make == (|item: Seq<char>| bullet@ + item),
            texts(lines@) == start + (seq![head] + texts(items@).take(i as int).map_values(make)),
    {
        let ghost now = texts(lines@);
        lines.push(with_tail(bullet, items[i].as_str()));
        proof {
            assert(texts(lines@) =~= now.push(bullet@ + items@[i as int]@));
            assert(texts(items@).take(i + 1) =~= texts(items@).take(i as int).push(
                items@[i as int]@,
            ));
            assert(start + (seq![head] + texts(items@).take(i + 1).map_values(make)) =~= now.push(
                bullet@ + items@[i as int]@,
            ));
        }
    }
    proof {
        assert(texts(items@).take(items@.len() as int) =~= texts(items@));
    }
}

/// The lines in which a report is printed.
pub fn report_lines(report: &DriftReport) -> (r: Vec<String>)
    ensures
        texts(r@) == report_text(*report),
{
    let mut lines: Vec<String> = Vec::new();
    proof {
        assert(texts(lines@) =~= Seq::empty());
    }
    push_section(
        &mut lines,
        "Warning: ",
        " previously deselected operation(s) no longer exist in the spec:",
        "  - ",
        &report.removed,
    );
    push_section(
        &mut lines,
        "Warning: ",
        " previously selected operation(s) no longer exist in the spec:",
        "  - ",
        &report.removed_selected,
    );
    push_section(
        &mut lines,
        "Info: ",
        " new operation(s) found in the spec (auto-selected):",
        "  + ",
        &report.new_ops,
    );
    proof {
        assert(texts(lines@) =~= report_text(*report));
    }
    lines
}

} // verus!
