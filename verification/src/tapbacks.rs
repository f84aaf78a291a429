//! Reactions: which of them still stand, and on which message.
use vstd::prelude::*;

use crate::apple::{self, from_apple_date};
use crate::contacts::{ContactIndex, ContactView};
use crate::db::{self, Tapback, name_of, number, tapback_symbol, text_column};
use crate::text::{self, borrowed, copied, same, same_maybe};

verus! {

/// One row of the reaction query, with the part of the stored target that names
/// a message.
#[derive(Debug)]
pub struct TapbackRow {
    pub target: Option<String>,
    pub kind: Option<i64>,
    pub emoji: Option<String>,
    pub date: Option<i64>,
    pub is_from_me: Option<i64>,
    pub handle: Option<String>,
}

/// The least kind that takes a reaction back. A removal's kind is a thousand
/// more than what it removes.
pub const REMOVAL: i64 = 3000;

/// Two rows are from the same person.
pub open spec fn same_sender(a: TapbackRow, b: TapbackRow) -> bool {
    (db::counted(a.is_from_me) == 1) == (db::counted(b.is_from_me) == 1) && db::column(a.handle)
        == db::column(b.handle)
}

/// `removal` takes back `reaction`: the same sender, and the kind it names.
pub open spec fn takes_back(removal: TapbackRow, reaction: TapbackRow) -> bool {
    db::counted(reaction.kind) == db::counted(removal.kind) - 1000 && same_sender(
        reaction,
        removal,
    )
}

/// The latest of `kept` that `removal` takes back.
pub open spec fn taken_back(kept: Seq<TapbackRow>, removal: TapbackRow) -> Option<nat>
    decreases kept.len(),
{
    if kept.len() == 0 {
        None
    } else if takes_back(removal, kept.last()) {
        Some((kept.len() - 1) as nat)
    } else {
        taken_back(kept.drop_last(), removal)
    }
}

/// The reactions to a message that still stand: a removal cancels the latest
/// surviving reaction from the same sender in its family, and drops itself
/// either way.
pub open spec fn surviving(rows: Seq<TapbackRow>, guid: Seq<char>) -> Seq<TapbackRow>
    decreases rows.len(),
{
    if rows.len() == 0 {
        Seq::empty()
    } else {
        let kept = surviving(rows.drop_last(), guid);
        let row = rows.last();
        if db::column(row.target) != Some(guid) {
            kept
        } else if db::counted(row.kind) >= REMOVAL {
            match taken_back(kept, row) {
                Some(at) => kept.remove(at as int),
                None => kept,
            }
        } else {
            kept.push(row)
        }
    }
}

/// The symbol a row is shown as.
pub open spec fn shown(row: TapbackRow) -> Option<Seq<char>> {
    db::symbol(db::counted(row.kind) as int, db::column(row.emoji))
}

/// Those of `rows` that have a symbol.
pub open spec fn showing(rows: Seq<TapbackRow>) -> Seq<TapbackRow>
    decreases rows.len(),
{
    if rows.len() == 0 {
        Seq::empty()
    } else if shown(rows.last()) is Some {
        showing(rows.drop_last()).push(rows.last())
    } else {
        showing(rows.drop_last())
    }
}

/// `tapback` is what `row` says.
pub open spec fn reacts(row: TapbackRow, contacts: Seq<ContactView>, tapback: Tapback) -> bool {
    &&& tapback.associated_message_type == db::counted(row.kind)
    &&& Some(tapback.symbol@) == shown(row)
    &&& tapback.date is Some <==> apple::instant(row.date) is Some
    &&& tapback.date is Some ==> tapback.date->0 == apple::instant(row.date)->0
    &&& tapback.is_from_me == (db::counted(row.is_from_me) == 1)
    &&& text::maybe(tapback.handle) == db::column(row.handle)
    &&& text::maybe(tapback.contact_name) == db::known_as(db::column(row.handle), contacts)
}

/// `tapbacks` are what `rows` say, one each and in order.
pub open spec fn reacts_each(
    rows: Seq<TapbackRow>,
    contacts: Seq<ContactView>,
    tapbacks: Seq<Tapback>,
) -> bool {
    &&& rows.len() == tapbacks.len()
    &&& forall|i: int| 0 <= i < rows.len() ==> reacts(#[trigger] rows[i], contacts, tapbacks[i])
}

/// The rows at these positions.
spec fn picked(rows: Seq<TapbackRow>, at: Seq<usize>) -> Seq<TapbackRow> {
    Seq::new(at.len(), |i: int| rows[at[i] as int])
}

/// Whether `removal` takes back `reaction`.
fn is_taken_back(removal: &TapbackRow, reaction: &TapbackRow) -> (yes: bool)
    requires
        db::counted(removal.kind) >= REMOVAL,
    ensures
        yes == takes_back(*removal, *reaction),
{
    if number(reaction.kind) != number(removal.kind) - 1000 {
        return false;
    }
    if (number(reaction.is_from_me) == 1) != (number(removal.is_from_me) == 1) {
        return false;
    }
    let a = text_column(copied(&reaction.handle));
    let b = text_column(copied(&removal.handle));
    same_maybe(borrowed(&a), borrowed(&b))
}

/// The positions of the rows that still stand.
fn survivors(rows: &[TapbackRow], guid: &str) -> (out: Vec<usize>)
    ensures
        forall|i: int| 0 <= i < out@.len() ==> (#[trigger] out@[i]) < rows@.len(),
        picked(rows@, out@) == surviving(rows@, guid@),
{
    let mut kept: Vec<usize> = Vec::new();
    assert(picked(rows@, kept@) =~= surviving(rows@.take(0), guid@));
    for i in 0..rows.len()
        invariant
            forall|j: int| 0 <= j < kept@.len() ==> (#[trigger] kept@[j]) < i <= rows@.len(),
            picked(rows@, kept@) == surviving(rows@.take(i as int), guid@),
    {
        let row = &rows[i];
        let ghost before = picked(rows@, kept@);
        proof {
            assert(rows@.take(i + 1).drop_last() =~= rows@.take(i as int));
            assert(rows@.take(i + 1).last() == *row);
        }
        let target = text_column(copied(&row.target));
        let about = match &target {
            Some(target) => same(target.as_str(), guid),
            None => false,
        };
        if about {
            if number(row.kind) >= REMOVAL {
                let mut at: usize = kept.len();
                let mut found: bool = false;
                assert(before.take(before.len() as int) =~= before);
                while at > 0 && !found
                    invariant
                        at <= kept@.len(),
                        i < rows@.len(),
                        *row == rows@[i as int],
                        db::counted(row.kind) >= REMOVAL,
                        before == picked(rows@, kept@),
                        forall|j: int| 0 <= j < kept@.len() ==> (#[trigger] kept@[j]) < i,
                        !found ==> taken_back(before, *row) == taken_back(
                            before.take(at as int),
                            *row,
                        ),
                        found ==> at < kept@.len() && taken_back(before, *row) == Some(at as nat),
                    decreases at,
                {
                    let ghost front = before.take(at as int);
                    proof {
                        assert(front.drop_last() =~= before.take(at - 1));
                        assert(front.last() == rows@[kept@[at - 1] as int]);
                    }
                    if is_taken_back(row, &rows[kept[at - 1]]) {
                        found = true;
                    }
                    at -= 1;
                }
                if found {
                    let ghost was = kept@;
                    let _ = kept.remove(at);
                    assert(picked(rows@, kept@) =~= before.remove(at as int));
                } else {
                    assert(before.take(0) =~= Seq::<TapbackRow>::empty());
                }
            } else {
                kept.push(i);
                assert(picked(rows@, kept@) =~= before.push(*row));
            }
        }
    }
    assert(rows@.take(rows@.len() as int) =~= rows@);
    kept
}

/// The reactions on one message, oldest first, removals cancelled.
pub fn tapbacks_on(rows: &[TapbackRow], guid: &str, contacts: &ContactIndex) -> (out: Vec<Tapback>)
    ensures
        reacts_each(showing(surviving(rows@, guid@)), contacts@.contacts, out@),
{
    let kept = survivors(rows, guid);
    let ghost standing = surviving(rows@, guid@);
    let mut out: Vec<Tapback> = Vec::new();
    for i in 0..kept.len()
        invariant
            forall|j: int| 0 <= j < kept@.len() ==> (#[trigger] kept@[j]) < rows@.len(),
            standing == picked(rows@, kept@),
            reacts_each(showing(standing.take(i as int)), contacts@.contacts, out@),
    {
        let row = &rows[kept[i]];
        proof {
            assert(standing.take(i + 1).drop_last() =~= standing.take(i as int));
            assert(standing.take(i + 1).last() == *row);
        }
        let emoji = text_column(copied(&row.emoji));
        if let Some(symbol) = tapback_symbol(number(row.kind), borrowed(&emoji)) {
            let handle = text_column(copied(&row.handle));
            let contact_name = name_of(borrowed(&handle), contacts);
            out.push(
                Tapback {
                    associated_message_type: number(row.kind),
                    symbol,
                    date: from_apple_date(row.date),
                    is_from_me: number(row.is_from_me) == 1,
                    handle,
                    contact_name,
                },
            );
        }
    }
    assert(standing.take(standing.len() as int) =~= standing);
    out
}

/// A removal undoes the reaction it follows: the message is left as if neither
/// had happened.
pub proof fn a_removal_undoes_its_reaction(
    rows: Seq<TapbackRow>,
    reaction: TapbackRow,
    removal: TapbackRow,
    guid: Seq<char>,
)
    requires
        db::column(reaction.target) == Some(guid),
        db::column(removal.target) == Some(guid),
        db::counted(reaction.kind) < REMOVAL,
        db::counted(removal.kind) >= REMOVAL,
        takes_back(removal, reaction),
    ensures
        surviving(rows.push(reaction).push(removal), guid) == surviving(rows, guid),
{
    let both = rows.push(reaction).push(removal);
    let kept = surviving(rows, guid);
    assert(both.drop_last() =~= rows.push(reaction));
    assert(rows.push(reaction).drop_last() =~= rows);
    assert(surviving(rows.push(reaction), guid) == kept.push(reaction));
    assert(kept.push(reaction).remove(kept.len() as int) =~= kept);
}

/// A removal of something that is not there changes nothing.
pub proof fn an_unmatched_removal_changes_nothing(
    rows: Seq<TapbackRow>,
    removal: TapbackRow,
    guid: Seq<char>,
)
    requires
        db::counted(removal.kind) >= REMOVAL,
        forall|i: int|
            0 <= i < surviving(rows, guid).len() ==> !takes_back(
                removal,
                #[trigger] surviving(rows, guid)[i],
            ),
    ensures
        surviving(rows.push(removal), guid) == surviving(rows, guid),
{
    assert(rows.push(removal).drop_last() =~= rows);
    nothing_to_take_back(surviving(rows, guid), removal);
}

proof fn nothing_to_take_back(kept: Seq<TapbackRow>, removal: TapbackRow)
    requires
        forall|i: int| 0 <= i < kept.len() ==> !takes_back(removal, #[trigger] kept[i]),
    ensures
        taken_back(kept, removal) is None,
    decreases kept.len(),
{
    if kept.len() > 0 {
        assert(!takes_back(removal, kept[kept.len() - 1]));
        assert forall|i: int| 0 <= i < kept.drop_last().len() implies !takes_back(
            removal,
            #[trigger] kept.drop_last()[i],
        ) by {
            assert(kept[i] == kept.drop_last()[i]);
        }
        nothing_to_take_back(kept.drop_last(), removal);
    }
}

/// A reaction to one message is nothing to another.
pub proof fn a_reaction_lands_on_its_own_message(
    rows: Seq<TapbackRow>,
    row: TapbackRow,
    guid: Seq<char>,
)
    requires
        db::column(row.target) != Some(guid),
    ensures
        surviving(rows.push(row), guid) == surviving(rows, guid),
{
    assert(rows.push(row).drop_last() =~= rows);
}

/// Everything that still stands on a message is a reaction to it, and none of
/// it is a removal.
pub proof fn what_stands_is_a_reaction(rows: Seq<TapbackRow>, guid: Seq<char>)
    ensures
        forall|i: int|
            0 <= i < surviving(rows, guid).len() ==> db::column(
                (#[trigger] surviving(rows, guid)[i]).target,
            ) == Some(guid) && db::counted(surviving(rows, guid)[i].kind) < REMOVAL,
    decreases rows.len(),
{
    if rows.len() > 0 {
        what_stands_is_a_reaction(rows.drop_last(), guid);
        let kept = surviving(rows.drop_last(), guid);
        let out = surviving(rows, guid);
        taken_back_is_within(kept, rows.last());
        assert forall|i: int| 0 <= i < out.len() implies db::column((#[trigger] out[i]).target)
            == Some(guid) && db::counted(out[i].kind) < REMOVAL by {
            if out.len() > kept.len() {
                if i < kept.len() {
                    assert(out[i] == kept[i]);
                }
            } else if out.len() < kept.len() {
                let at = taken_back(kept, rows.last())->0;
                if i < at {
                    assert(out[i] == kept[i]);
                } else {
                    assert(out[i] == kept[i + 1]);
                }
            }
        }
    }
}

proof fn taken_back_is_within(kept: Seq<TapbackRow>, removal: TapbackRow)
    ensures
        taken_back(kept, removal) is Some ==> taken_back(kept, removal)->0 < kept.len(),
    decreases kept.len(),
{
    if kept.len() > 0 {
        taken_back_is_within(kept.drop_last(), removal);
    }
}

/// A reaction that is not taken back stands, behind those that stood before it.
pub proof fn a_reaction_stands(rows: Seq<TapbackRow>, reaction: TapbackRow, guid: Seq<char>)
    requires
        db::column(reaction.target) == Some(guid),
        db::counted(reaction.kind) < REMOVAL,
    ensures
        surviving(rows.push(reaction), guid) == surviving(rows, guid).push(reaction),
{
    assert(rows.push(reaction).drop_last() =~= rows);
}

/// A removal takes back one reaction, the latest that it can: one whose kind is a thousand
/// less than its own, from the same address, and mine only where it is mine.
pub proof fn a_removal_takes_back_the_latest(
    rows: Seq<TapbackRow>,
    removal: TapbackRow,
    guid: Seq<char>,
    at: int,
)
    requires
        db::column(removal.target) == Some(guid),
        db::counted(removal.kind) >= 3000,
        0 <= at < surviving(rows, guid).len(),
        is_of(removal, surviving(rows, guid)[at]),
        forall|i: int|
            at < i < surviving(rows, guid).len() ==> !is_of(
                removal,
                #[trigger] surviving(rows, guid)[i],
            ),
    ensures
        surviving(rows.push(removal), guid) == surviving(rows, guid).remove(at),
{
    assert(rows.push(removal).drop_last() =~= rows);
    the_latest_is_taken_back(surviving(rows, guid), removal, at);
}

/// A removal is of a reaction: a thousand more than its kind, from whom it was.
pub open spec fn is_of(removal: TapbackRow, reaction: TapbackRow) -> bool {
    &&& db::counted(removal.kind) == db::counted(reaction.kind) + 1000
    &&& db::column(removal.handle) == db::column(reaction.handle)
    &&& removal.is_from_me == Some(1i64) <==> reaction.is_from_me == Some(1i64)
}

proof fn the_latest_is_taken_back(kept: Seq<TapbackRow>, removal: TapbackRow, at: int)
    requires
        0 <= at < kept.len(),
        is_of(removal, kept[at]),
        forall|i: int| at < i < kept.len() ==> !is_of(removal, #[trigger] kept[i]),
    ensures
        taken_back(kept, removal) == Some(at as nat),
    decreases kept.len(),
{
    if at < kept.len() - 1 {
        assert(!is_of(removal, kept[kept.len() - 1]));
        assert forall|i: int| at < i < kept.drop_last().len() implies !is_of(
            removal,
            #[trigger] kept.drop_last()[i],
        ) by {
            assert(kept[i] == kept.drop_last()[i]);
        }
        the_latest_is_taken_back(kept.drop_last(), removal, at);
    }
}

/// A reaction is what its row says: its symbol, from whom, and under the name their
/// address is known by.
pub proof fn a_reaction_is_what_its_row_says(
    row: TapbackRow,
    contacts: Seq<ContactView>,
    tapback: Tapback,
)
    requires
        reacts(row, contacts, tapback),
    ensures
        row.kind matches Some(kind) ==> tapback.associated_message_type == kind,
        tapback.is_from_me <==> row.is_from_me == Some(1i64),
        db::filled_in(row.handle) ==> tapback.handle is Some && tapback.handle->0@
            == row.handle->0@,
        !db::filled_in(row.handle) ==> tapback.handle is None && tapback.contact_name is None,
        db::filled_in(row.handle) ==> match crate::contacts::held(contacts, row.handle->0@) {
            Some(contact) => tapback.contact_name is Some && tapback.contact_name->0@
                == contact.name,
            None => tapback.contact_name is None,
        },
        row.kind == Some(2006i64) && db::filled_in(row.emoji) ==> tapback.symbol@ == row.emoji->0@,
        row.kind == Some(2000i64) ==> tapback.symbol@ == "❤️"@,
        row.date is None ==> tapback.date is None,
        row.date matches Some(date) ==> (date > 1_000_000_000_000 ==> tapback.date is Some
            && tapback.date->0 == date as int / 1_000_000 + 978_307_200_000),
{
}

/// Everything that stands and has a symbol is shown, and nothing without one.
pub proof fn what_has_a_symbol_is_shown(rows: Seq<TapbackRow>, row: TapbackRow)
    ensures
        showing(rows).contains(row) <==> rows.contains(row) && shown(row) is Some,
    decreases rows.len(),
{
    if rows.len() > 0 {
        let rest = rows.drop_last();
        let before = showing(rest);
        let all = showing(rows);
        what_has_a_symbol_is_shown(rest, row);
        if all.contains(row) {
            let k = choose|k: int| 0 <= k < all.len() && all[k] == row;
            if k < before.len() {
                assert(before[k] == row);
                let i = choose|i: int| 0 <= i < rest.len() && rest[i] == row;
                assert(rows[i] == row);
            } else {
                assert(rows[rows.len() - 1] == row);
            }
        }
        if rows.contains(row) && shown(row) is Some {
            let i = choose|i: int| 0 <= i < rows.len() && rows[i] == row;
            if i < rest.len() {
                assert(rest[i] == row);
                let k = choose|k: int| 0 <= k < before.len() && before[k] == row;
                assert(all[k] == row);
            } else {
                assert(all[all.len() - 1] == row);
            }
        }
    }
}

} // verus!
