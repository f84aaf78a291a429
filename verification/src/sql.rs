//! What the conditions of a query mean: a small reading of SQL, enough to say
//! which messages a `WHERE` keeps and in which order they come.
use vstd::prelude::*;

use crate::bodies;
use crate::queries::{self, Bound};
use crate::text;

verus! {

/// A row that a query reads: a message as the database holds it, in one of the
/// conversations it is in, or a conversation, whose date is that of its last message.
pub struct Stored {
    pub chat_id: int,
    pub filtered: Option<int>,
    pub rowid: int,
    pub date: Option<int>,
    pub kind: Option<int>,
    pub from_me: Option<int>,
    pub handle_id: Option<int>,
    pub text: Option<Seq<char>>,
    pub archive: Option<Seq<u8>>,
}

/// The number in a column. The join makes a message's id in a conversation the
/// rowid it has.
pub open spec fn cell(row: Stored, column: Seq<char>) -> Option<int> {
    if column == "chat_message_join.chat_id"@ {
        Some(row.chat_id)
    } else if column == "chat_message_join.message_id"@ {
        Some(row.rowid)
    } else if column == "message.rowid"@ {
        Some(row.rowid)
    } else if column == "chat.is_filtered"@ {
        row.filtered
    } else if column == "message.date"@ {
        row.date
    } else if column == "message.associated_message_type"@ {
        row.kind
    } else if column == "message.is_from_me"@ {
        row.from_me
    } else if column == "message.handle_id"@ {
        row.handle_id
    } else if column == "rowid"@ {
        Some(row.rowid)
    } else if column == "isFiltered"@ {
        row.filtered
    } else if column == "lastDate"@ {
        row.date
    } else if column == "m.date"@ {
        row.date
    } else {
        None
    }
}

/// A character that is a token of its own.
pub open spec fn punctuates(c: char) -> bool {
    c == '(' || c == ')' || c == ','
}

/// A character that ends a word.
pub open spec fn breaks(c: char) -> bool {
    c == ' ' || c == '\n' || punctuates(c)
}

/// The words and the punctuation of a text, in order.
pub open spec fn tokens(s: Seq<char>) -> Seq<Seq<char>>
    decreases s.len(),
{
    if s.len() == 0 {
        Seq::empty()
    } else {
        let c = s.last();
        let before = tokens(s.drop_last());
        if punctuates(c) {
            before.push(seq![c])
        } else if breaks(c) {
            before
        } else if s.len() == 1 || breaks(s[s.len() - 2]) {
            before.push(seq![c])
        } else {
            before.drop_last().push(before.last().push(c))
        }
    }
}

/// How many parentheses are open behind these tokens.
pub open spec fn level(ts: Seq<Seq<char>>) -> int
    decreases ts.len(),
{
    if ts.len() == 0 {
        0
    } else {
        level(ts.drop_last()) + (if ts.last() == "("@ {
            1int
        } else if ts.last() == ")"@ {
            -1
        } else {
            0
        })
    }
}

/// Where a word first stands outside all parentheses, or the end.
pub open spec fn outside(ts: Seq<Seq<char>>, word: Seq<char>) -> int
    decreases ts.len(),
{
    if ts.len() == 0 {
        0
    } else {
        let before = outside(ts.drop_last(), word);
        if before < ts.len() - 1 {
            before
        } else if ts.last() == word && level(ts.drop_last()) == 0 {
            ts.len() - 1
        } else {
            ts.len() as int
        }
    }
}

/// How many values these tokens take.
pub open spec fn takes(ts: Seq<Seq<char>>) -> nat
    decreases ts.len(),
{
    if ts.len() == 0 {
        0
    } else {
        takes(ts.drop_last()) + (if ts.last() == "?"@ {
            1nat
        } else {
            0
        })
    }
}

/// The number a token stands for: the value bound to a placeholder, or itself.
pub open spec fn operand(token: Seq<char>, values: Seq<Bound>) -> Option<int> {
    if token == "?"@ {
        if values.len() == 1 && values[0] is Integer {
            Some(values[0]->Integer_0 as int)
        } else {
            None
        }
    } else if text::all_digits(token) {
        Some(text::number(token) as int)
    } else {
        None
    }
}

/// What a comparison says of two numbers. One with nothing in it holds of
/// nothing.
pub open spec fn compares(a: Option<int>, op: Seq<char>, b: Option<int>) -> bool {
    a is Some && b is Some && if op == "="@ {
        a->0 == b->0
    } else if op == "<"@ {
        a->0 < b->0
    } else if op == ">"@ {
        a->0 > b->0
    } else {
        false
    }
}

/// Placeholders with a comma between each two.
pub open spec fn list(ts: Seq<Seq<char>>) -> bool {
    &&& ts.len() == 0 || ts.len() % 2 == 1
    &&& forall|i: int|
        0 <= i < ts.len() ==> #[trigger] ts[i] == (if i % 2 == 0 {
            "?"@
        } else {
            ","@
        })
}

/// What one condition says of a message: a comparison, being one of a list, or
/// what the function for bodies answers.
pub open spec fn condition(ts: Seq<Seq<char>>, values: Seq<Bound>, row: Stored) -> bool {
    if ts.len() == 3 {
        compares(cell(row, ts[0]), ts[1], operand(ts[2], values))
    } else if ts.len() >= 4 && ts[1] == "IN"@ {
        &&& ts[2] == "("@
        &&& ts.last() == ")"@
        &&& list(ts.subrange(3, ts.len() - 1))
        &&& exists|i: int|
            0 <= i < values.len() && (#[trigger] values[i]) is Integer && cell(row, ts[0]) == Some(
                values[i]->Integer_0 as int,
            )
    } else {
        &&& ts == seq![
            "msg_body_has"@,
            "("@,
            "message.text"@,
            ","@,
            "message.attributedBody"@,
            ","@,
            "?"@,
            ")"@,
        ]
        &&& values.len() == 1 && values[0] is Text
        &&& bodies::in_body(row.text, row.archive, values[0]->Text_0)
    }
}

/// Whether conditions hold of a message. `OR` binds less than `AND`, and
/// parentheses more than either; the values go to the placeholders in their order.
pub open spec fn holds(ts: Seq<Seq<char>>, values: Seq<Bound>, row: Stored) -> bool
    decreases ts.len(),
{
    let or = outside(ts, "OR"@);
    let and = outside(ts, "AND"@);
    if 0 <= or < ts.len() {
        let n = takes(ts.take(or)) as int;
        holds(ts.take(or), values.take(n), row) || holds(ts.skip(or + 1), values.skip(n), row)
    } else if 0 <= and < ts.len() {
        let n = takes(ts.take(and)) as int;
        holds(ts.take(and), values.take(n), row) && holds(ts.skip(and + 1), values.skip(n), row)
    } else if ts.len() >= 2 && ts[0] == "("@ && ts.last() == ")"@ {
        holds(ts.subrange(1, ts.len() - 1), values, row)
    } else {
        condition(ts, values, row)
    }
}

/// Whether a query's `WHERE` keeps a message. One that is not there keeps all.
pub open spec fn keeps(clause: Seq<char>, values: Seq<Bound>, row: Stored) -> bool {
    let ts = tokens(clause);
    if ts.len() == 0 {
        values.len() == 0
    } else {
        ts[0] == "WHERE"@ && takes(ts) == values.len() && holds(ts.skip(1), values, row)
    }
}

/// Whether a query's `ORDER BY` puts one message before another. A column goes up
/// unless it is said to go down.
pub open spec fn puts_before(clause: Seq<char>, a: Stored, b: Stored) -> bool {
    let ts = tokens(clause);
    &&& ts.len() == 3 || ts.len() == 4
    &&& ts[0] == "ORDER"@
    &&& ts[1] == "BY"@
    &&& (ts.len() == 3 || ts[3] == "ASC"@) && compares(cell(a, ts[2]), "<"@, cell(b, ts[2]))
        || ts.len() == 4 && ts[3] == "DESC"@ && compares(cell(a, ts[2]), ">"@, cell(b, ts[2]))
}

/// A text that is one word.
pub open spec fn word(w: Seq<char>) -> bool {
    w.len() > 0 && forall|i: int| 0 <= i < w.len() ==> !breaks(#[trigger] w[i])
}

/// Texts that nothing runs together are read one after the other.
pub proof fn tokens_in_parts(a: Seq<char>, b: Seq<char>)
    requires
        a.len() == 0 || b.len() == 0 || breaks(a.last()) || breaks(b[0]),
    ensures
        tokens(a + b) == tokens(a) + tokens(b),
    decreases b.len(),
{
    if b.len() == 0 {
        assert(a + b =~= a);
        assert(tokens(a) + tokens(b) =~= tokens(a));
    } else {
        let front = b.drop_last();
        let c = b.last();
        let all = a + b;
        assert(all.drop_last() =~= a + front);
        assert(all.last() == c);
        if front.len() > 0 {
            tokens_in_parts(a, front);
            assert(all[all.len() - 2] == b[b.len() - 2]);
            if !breaks(c) && !breaks(b[b.len() - 2]) {
                something_is_read(front);
                assert((tokens(a) + tokens(front)).drop_last() =~= tokens(a) + tokens(
                    front,
                ).drop_last());
            }
        } else {
            assert(a + front =~= a);
            assert(b =~= seq![c]);
            assert(tokens(front) =~= Seq::<Seq<char>>::empty());
            if a.len() > 0 {
                assert(all[all.len() - 2] == a.last());
            }
        }
        assert(tokens(all) =~= tokens(a) + tokens(b));
    }
}

proof fn something_is_read(s: Seq<char>)
    requires
        s.len() > 0,
        !breaks(s.last()),
    ensures
        tokens(s).len() > 0,
{
}

/// A word is read as itself.
pub proof fn a_word_is_a_token(w: Seq<char>)
    requires
        word(w),
    ensures
        tokens(w) == seq![w],
    decreases w.len(),
{
    let front = w.drop_last();
    if w.len() == 1 {
        assert(tokens(front) =~= Seq::<Seq<char>>::empty());
        assert(w =~= seq![w.last()]);
        assert(!breaks(w[0]));
        assert(tokens(w) =~= seq![w]);
    } else {
        assert forall|i: int| 0 <= i < front.len() implies !breaks(#[trigger] front[i]) by {
            assert(front[i] == w[i]);
        }
        a_word_is_a_token(front);
        assert(!breaks(w[w.len() - 1]) && !breaks(w[w.len() - 2]));
        assert(front.push(w.last()) =~= w);
        assert(tokens(w) =~= seq![w]);
    }
}

/// Two texts with a space between them are read one after the other.
pub proof fn spaced(a: Seq<char>, b: Seq<char>)
    ensures
        tokens(a + " "@ + b) == tokens(a) + tokens(b),
{
    reveal_strlit(" ");
    tokens_in_parts(a + " "@, b);
    tokens_in_parts(a, " "@);
    assert(" "@.drop_last() =~= Seq::<char>::empty());
    reveal_with_fuel(tokens, 2);
    assert(tokens(" "@) =~= Seq::<Seq<char>>::empty());
    assert(tokens(a) + tokens(" "@) =~= tokens(a));
}

proof fn levels_add(a: Seq<Seq<char>>, b: Seq<Seq<char>>)
    ensures
        level(a + b) == level(a) + level(b),
        takes(a + b) == takes(a) + takes(b),
    decreases b.len(),
{
    if b.len() == 0 {
        assert(a + b =~= a);
    } else {
        assert((a + b).drop_last() =~= a + b.drop_last());
        assert((a + b).last() == b.last());
        levels_add(a, b.drop_last());
    }
}

/// A word stands nowhere outside parentheses.
pub open spec fn quiet(ts: Seq<Seq<char>>, word: Seq<char>) -> bool {
    outside(ts, word) == ts.len()
}

/// Tokens that close what they open, with neither `AND` nor `OR` outside
/// parentheses.
pub open spec fn whole(ts: Seq<Seq<char>>) -> bool {
    &&& ts.len() > 0
    &&& level(ts) == 0
    &&& quiet(ts, "AND"@)
    &&& quiet(ts, "OR"@)
}

proof fn outside_is_within(ts: Seq<Seq<char>>, word: Seq<char>)
    ensures
        0 <= outside(ts, word) <= ts.len(),
    decreases ts.len(),
{
    if ts.len() > 0 {
        outside_is_within(ts.drop_last(), word);
    }
}

proof fn the_first_is_found(a: Seq<Seq<char>>, word: Seq<char>, b: Seq<Seq<char>>)
    requires
        quiet(a, word),
        level(a) == 0,
    ensures
        outside(a + seq![word] + b, word) == a.len(),
    decreases b.len(),
{
    let all = a + seq![word] + b;
    if b.len() == 0 {
        assert(all.drop_last() =~= a);
        assert(all.last() == word);
    } else {
        the_first_is_found(a, word, b.drop_last());
        assert(all.drop_last() =~= a + seq![word] + b.drop_last());
    }
}

proof fn quiet_together(a: Seq<Seq<char>>, b: Seq<Seq<char>>, word: Seq<char>)
    requires
        quiet(a, word),
        level(a) == 0,
        quiet(b, word),
    ensures
        quiet(a + b, word),
    decreases b.len(),
{
    if b.len() == 0 {
        assert(a + b =~= a);
    } else {
        let front = b.drop_last();
        outside_is_within(front, word);
        quiet_together(a, front, word);
        levels_add(a, front);
        assert((a + b).drop_last() =~= a + front);
        assert((a + b).last() == b.last());
    }
}

/// Every parenthesis that is closed was opened.
pub open spec fn opened(ts: Seq<Seq<char>>) -> bool
    decreases ts.len(),
{
    ts.len() == 0 || (opened(ts.drop_last()) && level(ts) >= 0)
}

proof fn opened_together(a: Seq<Seq<char>>, b: Seq<Seq<char>>)
    requires
        opened(a),
        level(a) >= 0,
        opened(b),
    ensures
        opened(a + b),
    decreases b.len(),
{
    if b.len() == 0 {
        assert(a + b =~= a);
    } else {
        opened_together(a, b.drop_last());
        assert((a + b).drop_last() =~= a + b.drop_last());
        levels_add(a, b);
    }
}

proof fn quiet_inside(ts: Seq<Seq<char>>, word: Seq<char>)
    requires
        opened(ts),
        word != "("@,
    ensures
        quiet(seq!["("@] + ts, word),
        level(seq!["("@] + ts) == 1 + level(ts),
    decreases ts.len(),
{
    let open = seq!["("@];
    levels_add(open, ts);
    assert(open.drop_last() =~= Seq::<Seq<char>>::empty());
    reveal_with_fuel(level, 2);
    reveal_with_fuel(outside, 2);
    if ts.len() == 0 {
        assert(open + ts =~= open);
    } else {
        let front = ts.drop_last();
        quiet_inside(front, word);
        reveal_with_fuel(opened, 2);
        assert((open + ts).drop_last() =~= open + front);
    }
}

/// What is in parentheses is one condition.
proof fn in_parentheses(ts: Seq<Seq<char>>)
    requires
        opened(ts),
        level(ts) == 0,
    ensures
        whole(seq!["("@] + ts + seq![")"@]),
        opened(seq!["("@] + ts + seq![")"@]),
        takes(seq!["("@] + ts + seq![")"@]) == takes(ts),
        forall|values: Seq<Bound>, row: Stored|
            #[trigger] holds(seq!["("@] + ts + seq![")"@], values, row) == holds(ts, values, row),
{
    literals();
    let open = seq!["("@];
    let close = seq![")"@];
    let all = open + ts + close;
    quiet_inside(ts, "AND"@);
    quiet_inside(ts, "OR"@);
    assert(all.drop_last() =~= open + ts);
    assert(all.last() == ")"@);
    assert(level(all) == 0);
    assert(open.drop_last() =~= Seq::<Seq<char>>::empty());
    reveal_with_fuel(opened, 2);
    reveal_with_fuel(level, 2);
    reveal_with_fuel(takes, 2);
    assert(opened(open));
    opened_together(open, ts);
    levels_add(open, ts);
    assert(all.subrange(1, all.len() - 1) =~= ts);
    assert(all[0] == "("@);
}

/// The words that are looked for are told apart.
proof fn literals()
    ensures
        "("@ != ")"@,
        "AND"@ != "OR"@,
        "AND"@ != "("@,
        "AND"@ != ")"@,
        "OR"@ != "("@,
        "OR"@ != ")"@,
        "?"@ != "AND"@,
        "?"@ != "OR"@,
        "?"@ != "("@,
        "?"@ != ")"@,
        ","@ != "AND"@,
        ","@ != "OR"@,
        ","@ != "("@,
        ","@ != ")"@,
        ","@ != "?"@,
        "IN"@ != "AND"@,
        "IN"@ != "OR"@,
        "IN"@ != "("@,
        "IN"@ != ")"@,
        "IN"@ != "?"@,
        "AND"@ != "?"@,
        "OR"@ != "?"@,
{
    reveal_strlit("(");
    reveal_strlit(")");
    reveal_strlit("AND");
    reveal_strlit("OR");
    reveal_strlit("?");
    reveal_strlit(",");
    reveal_strlit("IN");
    assert("("@[0] != ")"@[0]);
    assert("?"@[0] != ")"@[0] && "?"@[0] != "("@[0]);
    assert(","@[0] != ")"@[0] && ","@[0] != "("@[0] && ","@[0] != "?"@[0]);
    assert("AND"@.len() == 3 && "OR"@.len() == 2 && "IN"@.len() == 2 && "("@.len() == 1);
    assert("IN"@[0] != "OR"@[0]);
}

/// A token that says nothing of how conditions are put together.
pub open spec fn plain(w: Seq<char>) -> bool {
    w != "("@ && w != ")"@ && w != "AND"@ && w != "OR"@
}

/// A word that is neither that nor a placeholder.
pub open spec fn name(w: Seq<char>) -> bool {
    word(w) && plain(w) && w != "?"@
}

proof fn plain_tokens(ts: Seq<Seq<char>>)
    requires
        forall|i: int| 0 <= i < ts.len() ==> plain(#[trigger] ts[i]),
    ensures
        level(ts) == 0,
        quiet(ts, "AND"@),
        quiet(ts, "OR"@),
        opened(ts),
    decreases ts.len(),
{
    if ts.len() > 0 {
        let front = ts.drop_last();
        assert forall|i: int| 0 <= i < front.len() implies plain(#[trigger] front[i]) by {
            assert(front[i] == ts[i]);
        }
        plain_tokens(front);
        assert(plain(ts[ts.len() - 1]));
    }
}

/// Conditions joined by `AND` hold where each of them does.
pub proof fn both_hold(a: Seq<Seq<char>>, b: Seq<Seq<char>>, values: Seq<Bound>, row: Stored)
    requires
        whole(a),
        level(b) == 0,
        quiet(b, "OR"@),
        b.len() > 0,
    ensures
        holds(a + seq!["AND"@] + b, values, row) == (holds(
            a,
            values.take(takes(a) as int),
            row,
        ) && holds(b, values.skip(takes(a) as int), row)),
        level(a + seq!["AND"@] + b) == 0,
        quiet(a + seq!["AND"@] + b, "OR"@),
        takes(a + seq!["AND"@] + b) == takes(a) + takes(b),
{
    literals();
    let and = seq!["AND"@];
    let all = a + and + b;
    the_first_is_found(a, "AND"@, b);
    assert(and.drop_last() =~= Seq::<Seq<char>>::empty());
    reveal_with_fuel(level, 2);
    reveal_with_fuel(takes, 2);
    reveal_with_fuel(outside, 2);
    assert(quiet(and, "OR"@) && level(and) == 0 && takes(and) == 0);
    levels_add(a, and);
    levels_add(a + and, b);
    quiet_together(a, and, "OR"@);
    quiet_together(a + and, b, "OR"@);
    assert(all.take(a.len() as int) =~= a);
    assert(all.skip(a.len() as int + 1) =~= b);
}

/// Conditions joined by `OR` hold where either of them does.
pub proof fn either_holds(a: Seq<Seq<char>>, b: Seq<Seq<char>>, values: Seq<Bound>, row: Stored)
    requires
        whole(a),
        b.len() > 0,
    ensures
        holds(a + seq!["OR"@] + b, values, row) == (holds(
            a,
            values.take(takes(a) as int),
            row,
        ) || holds(b, values.skip(takes(a) as int), row)),
{
    let all = a + seq!["OR"@] + b;
    the_first_is_found(a, "OR"@, b);
    assert(all.take(a.len() as int) =~= a);
    assert(all.skip(a.len() as int + 1) =~= b);
}

/// A column compared with a number is read as that.
pub proof fn a_comparison(column: Seq<char>, op: Seq<char>, number: Seq<char>, values: Seq<Bound>, row: Stored)
    requires
        name(column),
        name(op),
        word(number) && plain(number),
    ensures
        tokens(column + " "@ + op + " "@ + number) == seq![column, op, number],
        whole(seq![column, op, number]),
        opened(seq![column, op, number]),
        takes(seq![column, op, number]) == (if number == "?"@ {
            1nat
        } else {
            0
        }),
        holds(seq![column, op, number], values, row) == compares(
            cell(row, column),
            op,
            operand(number, values),
        ),
{
    let ts = seq![column, op, number];
    a_word_is_a_token(column);
    a_word_is_a_token(op);
    a_word_is_a_token(number);
    spaced(column, op);
    spaced(column + " "@ + op, number);
    assert(seq![column] + seq![op] + seq![number] =~= ts);
    plain_tokens(ts);
    counting_three(ts);
}

proof fn counting_three(ts: Seq<Seq<char>>)
    requires
        ts.len() == 3,
        ts[0] != "?"@,
        ts[1] != "?"@,
    ensures
        takes(ts) == (if ts[2] == "?"@ {
            1nat
        } else {
            0
        }),
{
    reveal_with_fuel(takes, 4);
}

/// Being one of a list, in tokens.
pub open spec fn listed(column: Seq<char>, n: nat) -> Seq<Seq<char>> {
    seq![column, "IN"@, "("@] + placeholders(n) + seq![")"@]
}

/// Placeholders with a comma between each two, in tokens.
pub open spec fn placeholders(n: nat) -> Seq<Seq<char>>
    decreases n,
{
    if n == 0 {
        Seq::empty()
    } else if n == 1 {
        seq!["?"@]
    } else {
        placeholders((n - 1) as nat) + seq![","@, "?"@]
    }
}

proof fn placeholders_are_a_list(n: nat)
    ensures
        list(placeholders(n)),
        n > 0 ==> placeholders(n).len() == 2 * n - 1,
        takes(placeholders(n)) == n,
        forall|i: int| 0 <= i < placeholders(n).len() ==> plain(#[trigger] placeholders(n)[i]),
    decreases n,
{
    literals();
    let all = placeholders(n);
    reveal_with_fuel(takes, 3);
    if n == 1 {
        assert(all.drop_last() =~= Seq::<Seq<char>>::empty());
    } else if n > 1 {
        let fewer = placeholders((n - 1) as nat);
        placeholders_are_a_list((n - 1) as nat);
        let more = seq![","@, "?"@];
        assert(more.drop_last() =~= seq![","@]);
        assert(more.drop_last().drop_last() =~= Seq::<Seq<char>>::empty());
        levels_add(fewer, more);
        assert forall|i: int| 0 <= i < all.len() implies #[trigger] all[i] == (if i % 2 == 0 {
            "?"@
        } else {
            ","@
        }) && plain(all[i]) by {
            if i < fewer.len() {
                assert(all[i] == fewer[i]);
                assert(plain(fewer[i]));
            }
        }
    }
}

/// Being one of a list is read as that: some value of the list is what the column
/// holds.
pub proof fn a_list(column: Seq<char>, slots: Seq<char>, n: nat, values: Seq<Bound>, row: Stored)
    requires
        name(column),
        tokens(slots) == placeholders(n),
    ensures
        tokens(column + " IN ("@ + slots + ")"@) == listed(column, n),
        whole(listed(column, n)),
        opened(listed(column, n)),
        takes(listed(column, n)) == n,
        holds(listed(column, n), values, row) == exists|i: int|
            0 <= i < values.len() && (#[trigger] values[i]) is Integer && cell(row, column) == Some(
                values[i]->Integer_0 as int,
            ),
{
    literals();
    reveal_strlit(" IN (");
    reveal_strlit(" ");
    reveal_strlit("IN");
    reveal_strlit("(");
    reveal_strlit(")");
    let all = listed(column, n);
    let front = seq![column, "IN"@];
    let inner = placeholders(n);
    let list_tokens = seq!["("@] + inner + seq![")"@];
    assert(word("IN"@));
    a_word_is_a_token(column);
    a_word_is_a_token("IN"@);
    spaced(column, "IN"@);
    one_mark();
    let opening = column + " "@ + "IN"@;
    assert(column + " IN ("@ + slots + ")"@ =~= opening + " "@ + ("("@ + slots + ")"@));
    spaced(opening, "("@ + slots + ")"@);
    tokens_in_parts("("@, slots);
    tokens_in_parts("("@ + slots, ")"@);
    assert(tokens(column + " IN ("@ + slots + ")"@) =~= all);
    placeholders_are_a_list(n);
    plain_tokens(inner);
    in_parentheses(inner);
    plain_tokens(front);
    opened_together(front, list_tokens);
    quiet_together(front, list_tokens, "AND"@);
    quiet_together(front, list_tokens, "OR"@);
    levels_add(front, list_tokens);
    assert(front + list_tokens =~= all);
    assert(takes(front) == 0) by {
        reveal_with_fuel(takes, 3);
    }
    assert(all.subrange(3, all.len() - 1) =~= inner);
    assert(all.last() == ")"@);
    if n == 0 {
        assert(all.len() == 4);
    }
}

/// Each mark of punctuation is a token.
proof fn one_mark()
    ensures
        tokens("("@) == seq!["("@],
        tokens(")"@) == seq![")"@],
        tokens(","@) == seq![","@],
{
    reveal_strlit("(");
    reveal_strlit(")");
    reveal_strlit(",");
    reveal_with_fuel(tokens, 2);
    assert("("@.drop_last() =~= Seq::<char>::empty());
    assert(")"@.drop_last() =~= Seq::<char>::empty());
    assert(","@.drop_last() =~= Seq::<char>::empty());
    assert("("@ =~= seq!['('] && ")"@ =~= seq![')'] && ","@ =~= seq![',']);
    assert(tokens("("@) =~= seq!["("@] && tokens(")"@) =~= seq![")"@] && tokens(","@)
        =~= seq![","@]);
}

/// Placeholders as they are written are read as placeholders.
pub proof fn slots_are_read(n: nat)
    ensures
        tokens(queries::slots(n)) == placeholders(n),
    decreases n,
{
    let parts = Seq::new(n, |i: int| "?"@);
    reveal_strlit("?");
    reveal_strlit(",");
    assert(word("?"@));
    a_word_is_a_token("?"@);
    one_mark();
    if n > 1 {
        let fewer = queries::slots((n - 1) as nat);
        slots_are_read((n - 1) as nat);
        assert(parts.drop_last() =~= Seq::new((n - 1) as nat, |i: int| "?"@));
        tokens_in_parts(fewer, ","@);
        tokens_in_parts(fewer + ","@, "?"@);
        assert(tokens(queries::slots(n)) =~= placeholders(n));
    } else if n == 1 {
        assert(queries::slots(1) == "?"@);
    }
}

/// Values, one list after another.
pub open spec fn flat(vs: Seq<Seq<Bound>>) -> Seq<Bound>
    decreases vs.len(),
{
    if vs.len() == 0 {
        Seq::empty()
    } else {
        flat(vs.drop_last()) + vs.last()
    }
}

/// Conditions, and the values of each.
pub open spec fn conditions(cs: Seq<Seq<char>>, vs: Seq<Seq<Bound>>) -> bool {
    &&& cs.len() == vs.len()
    &&& forall|i: int|
        0 <= i < cs.len() ==> whole(tokens(#[trigger] cs[i])) && takes(tokens(cs[i]))
            == vs[i].len()
}

/// Every one of some conditions holds.
pub open spec fn all_hold(cs: Seq<Seq<char>>, vs: Seq<Seq<Bound>>, row: Stored) -> bool {
    forall|i: int| 0 <= i < cs.len() ==> holds(tokens(#[trigger] cs[i]), vs[i], row)
}

pub proof fn flat_adds(a: Seq<Seq<Bound>>, b: Seq<Seq<Bound>>)
    ensures
        flat(a + b) == flat(a) + flat(b),
    decreases b.len(),
{
    if b.len() == 0 {
        assert(a + b =~= a);
        assert(flat(a) + flat(b) =~= flat(a));
    } else {
        assert((a + b).drop_last() =~= a + b.drop_last());
        flat_adds(a, b.drop_last());
        assert(flat(a + b) =~= flat(a) + flat(b));
    }
}

proof fn joined_from_the_front(parts: Seq<Seq<char>>, sep: Seq<char>)
    requires
        parts.len() >= 2,
    ensures
        text::join(parts, sep) == parts[0] + sep + text::join(parts.drop_first(), sep),
    decreases parts.len(),
{
    let rest = parts.drop_first();
    if parts.len() == 2 {
        assert(parts.drop_last() =~= seq![parts[0]]);
        assert(rest =~= seq![parts[1]]);
        reveal_with_fuel(text::join, 2);
        assert(text::join(parts.drop_last(), sep) == parts[0]);
        assert(text::join(rest, sep) == parts[1]);
    } else {
        joined_from_the_front(parts.drop_last(), sep);
        assert(parts.drop_last().drop_first() =~= rest.drop_last());
        assert(text::join(parts, sep) =~= parts[0] + sep + text::join(rest, sep));
    }
}

/// Conditions with `AND` between each two hold where every one of them does.
pub proof fn all_of_them(cs: Seq<Seq<char>>, vs: Seq<Seq<Bound>>, row: Stored)
    requires
        cs.len() > 0,
        conditions(cs, vs),
    ensures
        holds(tokens(text::join(cs, " AND "@)), flat(vs), row) == all_hold(cs, vs, row),
        takes(tokens(text::join(cs, " AND "@))) == flat(vs).len(),
        level(tokens(text::join(cs, " AND "@))) == 0,
        quiet(tokens(text::join(cs, " AND "@)), "OR"@),
        tokens(text::join(cs, " AND "@)).len() > 0,
    decreases cs.len(),
{
    let first = tokens(cs[0]);
    if cs.len() == 1 {
        assert(vs =~= seq![vs[0]]);
        assert(vs.drop_last() =~= Seq::<Seq<Bound>>::empty());
        assert(flat(vs) =~= vs[0]) by {
            reveal_with_fuel(flat, 2);
        }
    } else {
        let rest = cs.drop_first();
        let others = vs.drop_first();
        assert forall|i: int| 0 <= i < rest.len() implies whole(tokens(#[trigger] rest[i]))
            && takes(tokens(rest[i])) == others[i].len() by {
            assert(rest[i] == cs[i + 1]);
        }
        all_of_them(rest, others, row);
        joined_from_the_front(cs, " AND "@);
        let behind = text::join(rest, " AND "@);
        reveal_strlit(" AND ");
        reveal_strlit(" ");
        reveal_strlit("AND");
        assert(word("AND"@));
        a_word_is_a_token("AND"@);
        assert(cs[0] + " AND "@ + behind =~= cs[0] + " "@ + "AND"@ + " "@ + behind);
        spaced(cs[0], "AND"@);
        spaced(cs[0] + " "@ + "AND"@, behind);
        both_hold(first, tokens(behind), flat(vs), row);
        assert(vs =~= seq![vs[0]] + others);
        flat_adds(seq![vs[0]], others);
        assert(seq![vs[0]].drop_last() =~= Seq::<Seq<Bound>>::empty());
        assert(flat(seq![vs[0]]) =~= vs[0]) by {
            reveal_with_fuel(flat, 2);
        }
        assert(flat(vs).take(takes(first) as int) =~= vs[0]);
        assert(flat(vs).skip(takes(first) as int) =~= flat(others));
        assert(all_hold(cs, vs, row) == (holds(first, vs[0], row) && all_hold(rest, others, row)))
            by {
            if all_hold(cs, vs, row) {
                assert(holds(tokens(cs[0]), vs[0], row));
                assert forall|i: int| 0 <= i < rest.len() implies holds(
                    tokens(#[trigger] rest[i]),
                    others[i],
                    row,
                ) by {
                    assert(holds(tokens(cs[i + 1]), vs[i + 1], row));
                }
            }
            if holds(first, vs[0], row) && all_hold(rest, others, row) {
                assert forall|i: int| 0 <= i < cs.len() implies holds(
                    tokens(#[trigger] cs[i]),
                    vs[i],
                    row,
                ) by {
                    if i > 0 {
                        assert(holds(tokens(rest[i - 1]), others[i - 1], row));
                    }
                }
            }
        }
    }
}

/// Two lists of conditions, one after the other.
pub proof fn more_conditions(
    a: Seq<Seq<char>>,
    b: Seq<Seq<char>>,
    v: Seq<Seq<Bound>>,
    w: Seq<Seq<Bound>>,
    row: Stored,
)
    requires
        conditions(a, v),
        conditions(b, w),
    ensures
        conditions(a + b, v + w),
        all_hold(a + b, v + w, row) == (all_hold(a, v, row) && all_hold(b, w, row)),
        flat(v + w) == flat(v) + flat(w),
{
    let cs = a + b;
    let vs = v + w;
    flat_adds(v, w);
    assert forall|i: int| 0 <= i < cs.len() implies whole(tokens(#[trigger] cs[i])) && takes(
        tokens(cs[i]),
    ) == vs[i].len() by {
        if i < a.len() {
            assert(cs[i] == a[i]);
        } else {
            assert(cs[i] == b[i - a.len()]);
        }
    }
    if all_hold(cs, vs, row) {
        assert forall|i: int| 0 <= i < a.len() implies holds(tokens(#[trigger] a[i]), v[i], row) by {
            assert(cs[i] == a[i]);
        }
        assert forall|i: int| 0 <= i < b.len() implies holds(tokens(#[trigger] b[i]), w[i], row) by {
            assert(cs[i + a.len()] == b[i]);
        }
    }
    if all_hold(a, v, row) && all_hold(b, w, row) {
        assert forall|i: int| 0 <= i < cs.len() implies holds(tokens(#[trigger] cs[i]), vs[i], row) by {
            if i < a.len() {
                assert(cs[i] == a[i]);
            } else {
                assert(cs[i] == b[i - a.len()]);
            }
        }
    }
}

/// What stands behind `WHERE` is what is asked.
pub proof fn where_is_read(conditions: Seq<char>)
    ensures
        tokens("WHERE "@ + conditions) == seq!["WHERE"@] + tokens(conditions),
        tokens("WHERE "@ + conditions).skip(1) == tokens(conditions),
        takes(tokens("WHERE "@ + conditions)) == takes(tokens(conditions)),
{
    reveal_strlit("WHERE ");
    reveal_strlit("WHERE");
    reveal_strlit(" ");
    reveal_strlit("?");
    assert(word("WHERE"@));
    a_word_is_a_token("WHERE"@);
    assert("WHERE "@ + conditions =~= "WHERE"@ + " "@ + conditions);
    spaced("WHERE"@, conditions);
    let first = seq!["WHERE"@];
    assert((first + tokens(conditions)).skip(1) =~= tokens(conditions));
    levels_add(first, tokens(conditions));
    reveal_with_fuel(takes, 2);
    assert(first.drop_last() =~= Seq::<Seq<char>>::empty());
    assert("WHERE"@.len() != "?"@.len());
}

/// The function for bodies is read as that.
pub proof fn the_function_is_read(values: Seq<Bound>, row: Stored)
    requires
        values.len() == 1,
        values[0] is Text,
    ensures
        whole(tokens("msg_body_has(message.text, message.attributedBody, ?)"@)),
        takes(tokens("msg_body_has(message.text, message.attributedBody, ?)"@)) == 1,
        holds(tokens("msg_body_has(message.text, message.attributedBody, ?)"@), values, row)
            == bodies::in_body(row.text, row.archive, values[0]->Text_0),
{
    literals();
    one_mark();
    let text = "msg_body_has(message.text, message.attributedBody, ?)"@;
    reveal_strlit("msg_body_has(message.text, message.attributedBody, ?)");
    reveal_strlit("msg_body_has");
    reveal_strlit("message.text");
    reveal_strlit("message.attributedBody");
    reveal_strlit("?");
    reveal_strlit("(");
    reveal_strlit(")");
    reveal_strlit(",");
    reveal_strlit(" ");
    reveal_strlit("IN");
    reveal_strlit("AND");
    reveal_strlit("OR");
    let a = "msg_body_has"@;
    let b = "message.text"@;
    let c = "message.attributedBody"@;
    assert(word(a) && word(b) && word(c) && word("?"@));
    a_word_is_a_token(a);
    a_word_is_a_token(b);
    a_word_is_a_token(c);
    a_word_is_a_token("?"@);
    assert(text =~= a + "("@ + b + ","@ + " "@ + (c + ","@ + " "@ + ("?"@ + ")"@)));
    tokens_in_parts(a, "("@);
    tokens_in_parts(a + "("@, b);
    tokens_in_parts(a + "("@ + b, ","@);
    spaced(a + "("@ + b + ","@, c + ","@ + " "@ + ("?"@ + ")"@));
    tokens_in_parts(c, ","@);
    spaced(c + ","@, "?"@ + ")"@);
    tokens_in_parts("?"@, ")"@);
    let ts = tokens(text);
    let inner = seq![b, ","@, c, ","@, "?"@];
    assert(ts =~= seq![a, "("@, b, ","@, c, ","@, "?"@, ")"@]);
    assert(a.len() == 12 && b.len() == 12 && c.len() == 22);
    assert(plain(a) && plain(b) && plain(c) && plain("?"@) && plain(","@));
    plain_tokens(seq![a]);
    plain_tokens(inner);
    in_parentheses(inner);
    let call = seq!["("@] + inner + seq![")"@];
    assert(ts =~= seq![a] + call);
    quiet_together(seq![a], call, "AND"@);
    quiet_together(seq![a], call, "OR"@);
    levels_add(seq![a], call);
    assert(b[0] == 'm' && "?"@[0] == '?' && b != "?"@ && c != "?"@ && a != "?"@);
    assert(takes(seq![a]) == 0 && takes(inner) == 1) by {
        reveal_with_fuel(takes, 6);
    }
    assert("("@.len() != "IN"@.len());
}

/// What somebody sent, in tokens.
pub open spec fn theirs(n: nat) -> Seq<Seq<char>> {
    seq!["("@] + (seq!["message.is_from_me"@, "="@, "0"@] + seq!["AND"@] + listed(
        "message.handle_id"@,
        n,
    )) + seq![")"@]
}

proof fn a_pair_is_read(side: Seq<char>, column: Seq<char>, n: nat, values: Seq<Bound>, row: Stored)
    requires
        side == "0"@ || side == "1"@,
        name(column),
        values.len() == n,
    ensures
        ({
            let all = "(message.is_from_me = "@ + side + " AND "@ + column + " IN ("@
                + queries::slots(n) + "))"@;
            let ts = seq!["("@] + (seq!["message.is_from_me"@, "="@, side] + seq!["AND"@] + listed(
                column,
                n,
            )) + seq![")"@];
            &&& tokens(all) == ts
            &&& whole(ts)
            &&& opened(ts)
            &&& takes(ts) == n
            &&& holds(ts, values, row) == (compares(
                cell(row, "message.is_from_me"@),
                "="@,
                operand(side, Seq::empty()),
            ) && exists|i: int|
                0 <= i < values.len() && (#[trigger] values[i]) is Integer && cell(row, column)
                    == Some(values[i]->Integer_0 as int))
        }),
{
    literals();
    one_mark();
    reveal_strlit("(message.is_from_me = ");
    reveal_strlit("message.is_from_me");
    reveal_strlit("=");
    reveal_strlit("0");
    reveal_strlit("1");
    reveal_strlit("?");
    reveal_strlit(" AND ");
    reveal_strlit("AND");
    reveal_strlit("OR");
    reveal_strlit(" IN (");
    reveal_strlit("))");
    reveal_strlit("(");
    reveal_strlit(")");
    reveal_strlit(" ");
    let mine = "message.is_from_me"@;
    let slots = queries::slots(n);
    assert(word(mine) && word("="@) && word(side) && word("AND"@));
    assert(mine.len() == 18 && "="@[0] == '=' && side[0] != '?' && "?"@[0] == '?');
    assert("("@[0] == '(' && ")"@[0] == ')' && side.len() == 1 && "AND"@.len() == 3 && "OR"@.len() == 2);
    slots_are_read(n);
    let none = Seq::<Bound>::empty();
    let first = seq![mine, "="@, side];
    let second = listed(column, n);
    a_comparison(mine, "="@, side, none, row);
    a_list(column, slots, n, values, row);
    a_word_is_a_token("AND"@);
    let left = mine + " "@ + "="@ + " "@ + side;
    let right = column + " IN ("@ + slots + ")"@;
    let inner = left + " "@ + "AND"@ + " "@ + right;
    spaced(left, "AND"@);
    spaced(left + " "@ + "AND"@, right);
    let all = "(message.is_from_me = "@ + side + " AND "@ + column + " IN ("@ + slots + "))"@;
    assert(all =~= "("@ + inner + ")"@);
    tokens_in_parts("("@, inner);
    tokens_in_parts("("@ + inner, ")"@);
    let and = seq!["AND"@];
    let ts = first + and + second;
    both_hold(first, second, values, row);
    assert(values.take(0) =~= none);
    assert(values.skip(0) =~= values);
    assert(and.drop_last() =~= Seq::<Seq<char>>::empty());
    assert(opened(and) && level(and) == 0) by {
        reveal_with_fuel(opened, 2);
        reveal_with_fuel(level, 2);
    }
    opened_together(first, and);
    levels_add(first, and);
    opened_together(first + and, second);
    in_parentheses(ts);
    assert(tokens(all) =~= seq!["("@] + ts + seq![")"@]);
}

/// What somebody sent is read as that.
pub proof fn one_side_is_read(n: nat, values: Seq<Bound>, row: Stored)
    requires
        values.len() == n,
    ensures
        tokens(queries::sent_by_them(n)) == theirs(n),
        whole(theirs(n)),
        opened(theirs(n)),
        takes(theirs(n)) == n,
        holds(theirs(n), values, row) == (row.from_me == Some(0int) && exists|i: int|
            0 <= i < values.len() && (#[trigger] values[i]) is Integer && row.handle_id == Some(
                values[i]->Integer_0 as int,
            )),
{
    queries::the_columns(row);
    a_pair_is_read("0"@, "message.handle_id"@, n, values, row);
    reveal_strlit("(message.is_from_me = 0 AND message.handle_id IN (");
    reveal_strlit("(message.is_from_me = ");
    reveal_strlit("0");
    reveal_strlit(" AND ");
    reveal_strlit("message.handle_id");
    reveal_strlit(" IN (");
    assert(queries::sent_by_them(n) =~= "(message.is_from_me = "@ + "0"@ + " AND "@
        + "message.handle_id"@ + " IN ("@ + queries::slots(n) + "))"@);
}

/// What somebody sent, and what I sent where it is just the two of us, is read as
/// that.
pub proof fn both_sides_are_read(n: nat, m: nat, values: Seq<Bound>, row: Stored)
    requires
        values.len() == n + m,
    ensures
        ({
            let all = "("@ + queries::sent_by_them(n)
                + " OR (message.is_from_me = 1 AND chat_message_join.chat_id IN ("@
                + queries::slots(m) + ")))"@;
            &&& whole(tokens(all))
            &&& takes(tokens(all)) == n + m
            &&& holds(tokens(all), values, row) == {
                ||| row.from_me == Some(0int) && exists|i: int|
                    0 <= i < n && (#[trigger] values.take(n as int)[i]) is Integer && row.handle_id
                        == Some(values.take(n as int)[i]->Integer_0 as int)
                ||| row.from_me == Some(1int) && exists|i: int|
                    0 <= i < m && (#[trigger] values.skip(n as int)[i]) is Integer && Some(
                        row.chat_id,
                    ) == Some(values.skip(n as int)[i]->Integer_0 as int)
            }
        }),
{
    literals();
    one_mark();
    queries::the_columns(row);
    let his = values.take(n as int);
    let mine = values.skip(n as int);
    one_side_is_read(n, his, row);
    a_pair_is_read("1"@, "chat_message_join.chat_id"@, m, mine, row);
    reveal_strlit(" OR (message.is_from_me = 1 AND chat_message_join.chat_id IN (");
    reveal_strlit("(message.is_from_me = ");
    reveal_strlit("1");
    reveal_strlit(" AND ");
    reveal_strlit("chat_message_join.chat_id");
    reveal_strlit(" IN (");
    reveal_strlit(")))");
    reveal_strlit("))");
    reveal_strlit(")");
    reveal_strlit("(");
    reveal_strlit("OR");
    reveal_strlit(" ");
    let left = queries::sent_by_them(n);
    let right = "(message.is_from_me = "@ + "1"@ + " AND "@ + "chat_message_join.chat_id"@
        + " IN ("@ + queries::slots(m) + "))"@;
    let all = "("@ + left + " OR (message.is_from_me = 1 AND chat_message_join.chat_id IN ("@
        + queries::slots(m) + ")))"@;
    let inner = left + " "@ + "OR"@ + " "@ + right;
    assert(all =~= "("@ + inner + ")"@);
    assert(word("OR"@));
    a_word_is_a_token("OR"@);
    spaced(left, "OR"@);
    spaced(left + " "@ + "OR"@, right);
    tokens_in_parts("("@, inner);
    tokens_in_parts("("@ + inner, ")"@);
    let a = theirs(n);
    let b = tokens(right);
    let or = seq!["OR"@];
    either_holds(a, b, values, row);
    assert(or.drop_last() =~= Seq::<Seq<char>>::empty());
    assert(opened(or) && level(or) == 0 && takes(or) == 0) by {
        reveal_with_fuel(opened, 2);
        reveal_with_fuel(level, 2);
        reveal_with_fuel(takes, 2);
    }
    opened_together(a, or);
    levels_add(a, or);
    opened_together(a + or, b);
    levels_add(a + or, b);
    in_parentheses(a + or + b);
    assert(tokens(all) =~= seq!["("@] + (a + or + b) + seq![")"@]);
}

} // verus!
