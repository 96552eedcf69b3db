use vstd::prelude::*;
use vstd::string::StrSliceExecFns;

use crate::task::Task;
use crate::task::TaskView;
use crate::task::task_views;

verus! {

/// Error of `decode`: the text is not a well-formed task document, or an id
/// in it does not fit the machine's integer range.
#[derive(Debug, PartialEq, Eq, Structural)]
pub struct DecodeError;

/// Whether `c` is a decimal digit.
pub open spec fn is_digit(c: char) -> bool {
    c == '0' || c == '1' || c == '2' || c == '3' || c == '4' || c == '5' || c == '6' || c == '7'
        || c == '8' || c == '9'
}

/// The decimal digit character for a value below ten.
pub open spec fn digit_char(d: nat) -> char {
    if d == 0 {
        '0'
    } else if d == 1 {
        '1'
    } else if d == 2 {
        '2'
    } else if d == 3 {
        '3'
    } else if d == 4 {
        '4'
    } else if d == 5 {
        '5'
    } else if d == 6 {
        '6'
    } else if d == 7 {
        '7'
    } else if d == 8 {
        '8'
    } else {
        '9'
    }
}

/// The value of a decimal digit character.
pub open spec fn digit_value(c: char) -> nat {
    if c == '0' {
        0
    } else if c == '1' {
        1
    } else if c == '2' {
        2
    } else if c == '3' {
        3
    } else if c == '4' {
        4
    } else if c == '5' {
        5
    } else if c == '6' {
        6
    } else if c == '7' {
        7
    } else if c == '8' {
        8
    } else {
        9
    }
}

/// The decimal digits of `n`, most significant first.
pub open spec fn encode_nat(n: nat) -> Seq<char>
    decreases n,
{
    if n < 10 {
        seq![digit_char(n)]
    } else {
        encode_nat(n / 10) + seq![digit_char(n % 10)]
    }
}

/// One description character in the encoded text: a quote or a backslash is
/// preceded by a backslash; every other character stands as itself.
pub open spec fn escape_char(c: char) -> Seq<char> {
    if c == '"' || c == '\\' {
        seq!['\\', c]
    } else {
        seq![c]
    }
}

/// The description text with every quote and backslash escaped.
pub open spec fn escape(d: Seq<char>) -> Seq<char>
    decreases d.len(),
{
    if d.len() == 0 {
        Seq::empty()
    } else {
        escape_char(d[0]) + escape(d.drop_first())
    }
}

/// The encoded completion flag.
pub open spec fn encode_bool(b: bool) -> Seq<char> {
    if b {
        seq!['t', 'r', 'u', 'e']
    } else {
        seq!['f', 'a', 'l', 's', 'e']
    }
}

/// The id key with its separating colon.
pub open spec fn id_key() -> Seq<char> {
    seq!['"', 'i', 'd', '"', ':']
}

/// The description key with its colon and the opening quote of its value.
pub open spec fn description_key() -> Seq<char> {
    seq!['"', 'd', 'e', 's', 'c', 'r', 'i', 'p', 't', 'i', 'o', 'n', '"', ':', '"']
}

/// The done key with its separating colon.
pub open spec fn done_key() -> Seq<char> {
    seq!['"', 'd', 'o', 'n', 'e', '"', ':']
}

/// The fixed text that opens a record and introduces the id field.
pub open spec fn id_prefix() -> Seq<char> {
    seq!['{'] + id_key()
}

/// The fixed text between the id and the opening quote of the description.
pub open spec fn description_prefix() -> Seq<char> {
    seq![','] + description_key()
}

/// The fixed text between the closing quote of the description and the
/// completion flag.
pub open spec fn done_prefix() -> Seq<char> {
    seq![','] + done_key()
}

/// The encoded text of one task record.
pub open spec fn encode_task(t: TaskView) -> Seq<char> {
    id_prefix() + encode_nat(t.id) + description_prefix() + escape(t.description) + seq!['"']
        + done_prefix() + encode_bool(t.done) + seq!['}']
}

/// The records, joined by commas.
pub open spec fn encode_list(ts: Seq<TaskView>) -> Seq<char>
    decreases ts.len(),
{
    if ts.len() == 0 {
        Seq::empty()
    } else if ts.len() == 1 {
        encode_task(ts[0])
    } else {
        encode_task(ts[0]) + seq![','] + encode_list(ts.drop_first())
    }
}

/// The whole document: the records joined by commas, inside brackets.
pub open spec fn encode_tasks(ts: Seq<TaskView>) -> Seq<char> {
    seq!['['] + encode_list(ts) + seq![']']
}

/// The digits at the head of `s`, folded onto `acc`; stops at the first
/// non-digit and also returns the rest.
pub open spec fn parse_nat_loop(s: Seq<char>, acc: nat) -> (nat, Seq<char>)
    decreases s.len(),
{
    if s.len() > 0 && is_digit(s[0]) {
        parse_nat_loop(s.drop_first(), acc * 10 + digit_value(s[0]))
    } else {
        (acc, s)
    }
}

/// A decimal number at the head of `s`: at least one digit.
pub open spec fn parse_nat(s: Seq<char>) -> Option<(nat, Seq<char>)> {
    if s.len() > 0 && is_digit(s[0]) {
        Some(parse_nat_loop(s, 0))
    } else {
        None
    }
}

/// The description text at the head of `s`, up to and including its closing
/// quote, unescaped. A backslash must be followed by a quote or a backslash.
pub open spec fn parse_string(s: Seq<char>) -> Option<(Seq<char>, Seq<char>)>
    decreases s.len(),
{
    if s.len() == 0 {
        None
    } else if s[0] == '"' {
        Some((Seq::empty(), s.drop_first()))
    } else if s[0] == '\\' {
        if s.len() >= 2 && (s[1] == '"' || s[1] == '\\') {
            match parse_string(s.skip(2)) {
                Some((d, r)) => Some((seq![s[1]] + d, r)),
                None => None,
            }
        } else {
            None
        }
    } else {
        match parse_string(s.drop_first()) {
            Some((d, r)) => Some((seq![s[0]] + d, r)),
            None => None,
        }
    }
}

/// The given fixed text at the head of `s`.
pub open spec fn expect(s: Seq<char>, pat: Seq<char>) -> Option<Seq<char>> {
    if pat.len() <= s.len() && s.take(pat.len() as int) == pat {
        Some(s.skip(pat.len() as int))
    } else {
        None
    }
}

/// A completion flag at the head of `s`.
pub open spec fn parse_bool(s: Seq<char>) -> Option<(bool, Seq<char>)> {
    match expect(s, encode_bool(true)) {
        Some(r) => Some((true, r)),
        None => match expect(s, encode_bool(false)) {
            Some(r) => Some((false, r)),
            None => None,
        },
    }
}

/// One record field at the head of `s`: its key and its value.
pub enum FieldVal {
    Id(nat),
    Description(Seq<char>),
    Done(bool),
}

/// One field of a record: one of the three keys, then a value of that
/// field's shape.
pub open spec fn parse_field(s: Seq<char>) -> Option<(FieldVal, Seq<char>)> {
    match expect(s, id_key()) {
        Some(s1) => match parse_nat(s1) {
            Some((n, r)) => Some((FieldVal::Id(n), r)),
            None => None,
        },
        None => match expect(s, description_key()) {
            Some(s1) => match parse_string(s1) {
                Some((d, r)) => Some((FieldVal::Description(d), r)),
                None => None,
            },
            None => match expect(s, done_key()) {
                Some(s1) => match parse_bool(s1) {
                    Some((b, r)) => Some((FieldVal::Done(b), r)),
                    None => None,
                },
                None => None,
            },
        },
    }
}

/// The task assembled from three fields, one of each kind, in any order.
pub open spec fn assemble_task(f1: FieldVal, f2: FieldVal, f3: FieldVal) -> Option<TaskView> {
    match (f1, f2, f3) {
        (FieldVal::Id(n), FieldVal::Description(d), FieldVal::Done(b)) => Some(
            TaskView { id: n, description: d, done: b },
        ),
        (FieldVal::Id(n), FieldVal::Done(b), FieldVal::Description(d)) => Some(
            TaskView { id: n, description: d, done: b },
        ),
        (FieldVal::Description(d), FieldVal::Id(n), FieldVal::Done(b)) => Some(
            TaskView { id: n, description: d, done: b },
        ),
        (FieldVal::Description(d), FieldVal::Done(b), FieldVal::Id(n)) => Some(
            TaskView { id: n, description: d, done: b },
        ),
        (FieldVal::Done(b), FieldVal::Id(n), FieldVal::Description(d)) => Some(
            TaskView { id: n, description: d, done: b },
        ),
        (FieldVal::Done(b), FieldVal::Description(d), FieldVal::Id(n)) => Some(
            TaskView { id: n, description: d, done: b },
        ),
        _ => None,
    }
}

/// One task record at the head of `s`: a brace-wrapped record of exactly
/// three comma-separated fields, one of each kind, in any order.
pub open spec fn parse_task(s: Seq<char>) -> Option<(TaskView, Seq<char>)> {
    match expect(s, seq!['{']) {
        None => None,
        Some(s1) => match parse_field(s1) {
            None => None,
            Some((f1, s2)) => match expect(s2, seq![',']) {
                None => None,
                Some(s3) => match parse_field(s3) {
                    None => None,
                    Some((f2, s4)) => match expect(s4, seq![',']) {
                        None => None,
                        Some(s5) => match parse_field(s5) {
                            None => None,
                            Some((f3, s6)) => match expect(s6, seq!['}']) {
                                None => None,
                                Some(s7) => match assemble_task(f1, f2, f3) {
                                    None => None,
                                    Some(t) => Some((t, s7)),
                                },
                            },
                        },
                    },
                },
            },
        },
    }
}

/// `parse_nat_loop` never lengthens the rest.
proof fn lemma_parse_nat_loop_consumes(s: Seq<char>, acc: nat)
    ensures
        parse_nat_loop(s, acc).1.len() <= s.len(),
    decreases s.len(),
{
    if s.len() > 0 && is_digit(s[0]) {
        lemma_parse_nat_loop_consumes(s.drop_first(), acc * 10 + digit_value(s[0]));
    }
}

/// A successful `parse_string` consumes at least the closing quote.
proof fn lemma_parse_string_consumes(s: Seq<char>)
    ensures
        parse_string(s) matches Some((d, r)) ==> r.len() < s.len(),
    decreases s.len(),
{
    if s.len() == 0 {
    } else if s[0] == '"' {
    } else if s[0] == '\\' {
        if s.len() >= 2 && (s[1] == '"' || s[1] == '\\') {
            lemma_parse_string_consumes(s.skip(2));
        }
    } else {
        lemma_parse_string_consumes(s.drop_first());
    }
}

/// A successful `parse_field` consumes at least its key.
proof fn lemma_parse_field_consumes(s: Seq<char>)
    ensures
        parse_field(s) matches Some((f, r)) ==> r.len() < s.len(),
{
    if parse_field(s) is Some {
        if expect(s, id_key()) is Some {
            let s1 = expect(s, id_key()).unwrap();
            lemma_parse_nat_loop_consumes(s1, 0);
        } else if expect(s, description_key()) is Some {
            let s1 = expect(s, description_key()).unwrap();
            lemma_parse_string_consumes(s1);
        }
    }
}

/// A successful `parse_task` consumes at least the opening brace.
proof fn lemma_parse_task_consumes(s: Seq<char>)
    ensures
        parse_task(s) matches Some((t, r)) ==> r.len() < s.len(),
{
    if parse_task(s) is Some {
        let s1 = expect(s, seq!['{']).unwrap();
        assert(s1.len() < s.len());
        let (f1, s2) = parse_field(s1).unwrap();
        lemma_parse_field_consumes(s1);
        let s3 = expect(s2, seq![',']).unwrap();
        let (f2, s4) = parse_field(s3).unwrap();
        lemma_parse_field_consumes(s3);
        let s5 = expect(s4, seq![',']).unwrap();
        let (f3, s6) = parse_field(s5).unwrap();
        lemma_parse_field_consumes(s5);
    }
}

/// Comma-separated task records at the head of `s`: at least one.
pub open spec fn parse_task_list(s: Seq<char>) -> Option<(Seq<TaskView>, Seq<char>)>
    decreases s.len(),
    via parse_task_list_decreases
{
    match parse_task(s) {
        None => None,
        Some((t, r)) => if r.len() > 0 && r[0] == ',' {
            match parse_task_list(r.drop_first()) {
                None => None,
                Some((ts, r2)) => Some((seq![t] + ts, r2)),
            }
        } else {
            Some((seq![t], r))
        },
    }
}

#[via_fn]
proof fn parse_task_list_decreases(s: Seq<char>) {
    lemma_parse_task_consumes(s);
}

/// The task sequence encoded by the whole text: brackets around
/// comma-separated records, with nothing before or after them.
pub open spec fn spec_decode(s: Seq<char>) -> Option<Seq<TaskView>> {
    match expect(s, seq!['[']) {
        None => None,
        Some(r) => if r == seq![']'] {
            Some(Seq::empty())
        } else {
            match parse_task_list(r) {
                None => None,
                Some((ts, r2)) => if r2 == seq![']'] {
                    Some(ts)
                } else {
                    None
                },
            }
        },
    }
}

/// Whether every id in the sequence fits the machine's integer range.
pub open spec fn ids_fit(ts: Seq<TaskView>) -> bool {
    forall|k: int| 0 <= k < ts.len() ==> (#[trigger] ts[k]).id <= usize::MAX
}

/// What `decode` returns: the decoded sequence exactly when the text is a
/// well-formed document whose ids fit the machine's integer range.
pub open spec fn decode_post(s: Seq<char>, r: Result<Vec<Task>, DecodeError>) -> bool {
    match spec_decode(s) {
        None => r is Err,
        Some(ts) => if ids_fit(ts) {
            r matches Ok(d) && task_views(d@) == ts
        } else {
            r is Err
        },
    }
}

/// The value of `acc` followed by the digit characters `ds`.
pub open spec fn digits_value(acc: nat, ds: Seq<char>) -> nat
    decreases ds.len(),
{
    if ds.len() == 0 {
        acc
    } else {
        digits_value(acc * 10 + digit_value(ds[0]), ds.drop_first())
    }
}

/// A digit character written for a value below ten reads back as that value.
proof fn lemma_digit_roundtrip(d: nat)
    requires
        d < 10,
    ensures
        is_digit(digit_char(d)),
        digit_value(digit_char(d)) == d,
{
}

/// The digits of `n` are digit characters, and there is at least one.
proof fn lemma_encode_nat_digits(n: nat)
    ensures
        encode_nat(n).len() > 0,
        forall|i: int| 0 <= i < encode_nat(n).len() ==> is_digit(#[trigger] encode_nat(n)[i]),
    decreases n,
{
    if n < 10 {
        lemma_digit_roundtrip(n);
    } else {
        lemma_encode_nat_digits(n / 10);
        lemma_digit_roundtrip(n % 10);
    }
}

/// Reading digits folds them onto the accumulator and stops exactly at the
/// first non-digit.
proof fn lemma_parse_nat_loop_scan(ds: Seq<char>, rest: Seq<char>, acc: nat)
    requires
        forall|i: int| 0 <= i < ds.len() ==> is_digit(#[trigger] ds[i]),
        rest.len() == 0 || !is_digit(rest[0]),
    ensures
        parse_nat_loop(ds + rest, acc) == (digits_value(acc, ds), rest),
    decreases ds.len(),
{
    if ds.len() == 0 {
        assert(ds + rest =~= rest);
    } else {
        assert((ds + rest)[0] == ds[0]);
        assert((ds + rest).drop_first() =~= ds.drop_first() + rest);
        lemma_parse_nat_loop_scan(ds.drop_first(), rest, acc * 10 + digit_value(ds[0]));
    }
}

/// `digits_value` distributes over appending one digit at the end.
proof fn lemma_digits_value_snoc(acc: nat, ds: Seq<char>, c: char)
    ensures
        digits_value(acc, ds.push(c)) == digits_value(acc, ds) * 10 + digit_value(c),
    decreases ds.len(),
{
    if ds.len() == 0 {
        assert(ds.push(c)[0] == c);
        assert(ds.push(c).drop_first() =~= Seq::<char>::empty());
        assert(digits_value(acc, ds.push(c)) == digits_value(
            acc * 10 + digit_value(c),
            Seq::<char>::empty(),
        ));
        assert(digits_value(acc * 10 + digit_value(c), Seq::<char>::empty()) == acc * 10
            + digit_value(c));
    } else {
        assert(ds.push(c)[0] == ds[0]);
        assert(ds.push(c).drop_first() =~= ds.drop_first().push(c));
        lemma_digits_value_snoc(acc * 10 + digit_value(ds[0]), ds.drop_first(), c);
    }
}

/// The digits of `n` read back as `n`.
proof fn lemma_digits_value_encode(n: nat)
    ensures
        digits_value(0, encode_nat(n)) == n,
    decreases n,
{
    if n < 10 {
        lemma_digit_roundtrip(n);
        let ds = encode_nat(n);
        assert(ds[0] == digit_char(n));
        assert(ds.drop_first() =~= Seq::<char>::empty());
        assert(digits_value(0, ds) == digits_value(digit_value(ds[0]), Seq::<char>::empty()));
        assert(digits_value(digit_value(ds[0]), Seq::<char>::empty()) == digit_value(ds[0]));
    } else {
        lemma_digits_value_encode(n / 10);
        lemma_digit_roundtrip(n % 10);
        assert(encode_nat(n) =~= encode_nat(n / 10).push(digit_char(n % 10)));
        lemma_digits_value_snoc(0, encode_nat(n / 10), digit_char(n % 10));
        assert(n / 10 * 10 + n % 10 == n);
    }
}

/// A number written by the encoder reads back as itself, leaving the rest.
proof fn lemma_parse_nat_encode(n: nat, rest: Seq<char>)
    requires
        rest.len() == 0 || !is_digit(rest[0]),
    ensures
        parse_nat(encode_nat(n) + rest) == Some((n, rest)),
{
    lemma_encode_nat_digits(n);
    assert((encode_nat(n) + rest)[0] == encode_nat(n)[0]);
    lemma_parse_nat_loop_scan(encode_nat(n), rest, 0);
    lemma_digits_value_encode(n);
}

/// A description written by the encoder reads back as itself: the escaped
/// text followed by the closing quote parses to the text it came from.
proof fn lemma_parse_string_escape(d: Seq<char>, rest: Seq<char>)
    ensures
        parse_string(escape(d) + seq!['"'] + rest) == Some((d, rest)),
    decreases d.len(),
{
    let s = escape(d) + seq!['"'] + rest;
    if d.len() == 0 {
        assert(s =~= seq!['"'] + rest);
        assert(s[0] == '"');
        assert(s.drop_first() =~= rest);
    } else {
        let c = d[0];
        let tail = d.drop_first();
        lemma_parse_string_escape(tail, rest);
        if c == '"' || c == '\\' {
            assert(escape(d) =~= seq!['\\', c] + escape(tail));
            assert(s[0] == '\\');
            assert(s[1] == c);
            assert(s.len() >= 2);
            assert(s.skip(2) =~= escape(tail) + seq!['"'] + rest);
            assert(seq![s[1]] + tail =~= d);
        } else {
            assert(escape(d) =~= seq![c] + escape(tail));
            assert(s[0] == c);
            assert(s.drop_first() =~= escape(tail) + seq!['"'] + rest);
            assert(seq![s[0]] + tail =~= d);
        }
    }
}

/// A fixed text at the head of the input is recognised, leaving the rest.
proof fn lemma_expect_prefix(pat: Seq<char>, rest: Seq<char>)
    ensures
        expect(pat + rest, pat) == Some(rest),
{
    assert((pat + rest).take(pat.len() as int) =~= pat);
    assert((pat + rest).skip(pat.len() as int) =~= rest);
}

/// A completion flag written by the encoder reads back as itself.
proof fn lemma_parse_bool_encode(b: bool, rest: Seq<char>)
    ensures
        parse_bool(encode_bool(b) + rest) == Some((b, rest)),
{
    let s = encode_bool(b) + rest;
    if b {
        lemma_expect_prefix(encode_bool(true), rest);
    } else {
        assert(s[0] == 'f');
        assert(expect(s, encode_bool(true)) is None) by {
            if expect(s, encode_bool(true)) is Some {
                assert(s.take(4)[0] == s[0]);
            }
        }
        lemma_expect_prefix(encode_bool(false), rest);
    }
}

/// An id field written by the encoder reads back as itself.
proof fn lemma_parse_field_id(n: nat, rest: Seq<char>)
    requires
        rest.len() == 0 || !is_digit(rest[0]),
    ensures
        parse_field(id_key() + (encode_nat(n) + rest)) == Some((FieldVal::Id(n), rest)),
{
    lemma_expect_prefix(id_key(), encode_nat(n) + rest);
    lemma_parse_nat_encode(n, rest);
}

/// A description field written by the encoder reads back as itself.
proof fn lemma_parse_field_description(d: Seq<char>, rest: Seq<char>)
    ensures
        parse_field(description_key() + (escape(d) + (seq!['"'] + rest))) == Some(
            (FieldVal::Description(d), rest),
        ),
{
    let s = description_key() + (escape(d) + (seq!['"'] + rest));
    assert(s[1] == 'd');
    assert(expect(s, id_key()) is None) by {
        if expect(s, id_key()) is Some {
            assert(s.take(5)[1] == s[1]);
        }
    }
    lemma_expect_prefix(description_key(), escape(d) + (seq!['"'] + rest));
    assert(escape(d) + (seq!['"'] + rest) =~= escape(d) + seq!['"'] + rest);
    lemma_parse_string_escape(d, rest);
}

/// A completion field written by the encoder reads back as itself.
proof fn lemma_parse_field_done(b: bool, rest: Seq<char>)
    ensures
        parse_field(done_key() + (encode_bool(b) + rest)) == Some((FieldVal::Done(b), rest)),
{
    let s = done_key() + (encode_bool(b) + rest);
    assert(s[1] == 'd');
    assert(s[2] == 'o');
    assert(expect(s, id_key()) is None) by {
        if expect(s, id_key()) is Some {
            assert(s.take(5)[1] == s[1]);
        }
    }
    assert(expect(s, description_key()) is None) by {
        if expect(s, description_key()) is Some {
            assert(s.take(15)[2] == s[2]);
        }
    }
    lemma_expect_prefix(done_key(), encode_bool(b) + rest);
    lemma_parse_bool_encode(b, rest);
}

/// A record written by the encoder reads back as the same task, leaving the
/// rest.
#[verifier::rlimit(50)]
proof fn lemma_parse_task_encode(t: TaskView, rest: Seq<char>)
    ensures
        parse_task(encode_task(t) + rest) == Some((t, rest)),
{
    let s = encode_task(t) + rest;
    let r1 = id_key() + (encode_nat(t.id) + (seq![','] + (description_key() + (escape(
        t.description,
    ) + (seq!['"'] + (seq![','] + (done_key() + (encode_bool(t.done) + (seq!['}']
        + rest)))))))));
    assert(s =~= seq!['{'] + r1);
    lemma_expect_prefix(seq!['{'], r1);
    let r2 = seq![','] + (description_key() + (escape(t.description) + (seq!['"'] + (seq![',']
        + (done_key() + (encode_bool(t.done) + (seq!['}'] + rest)))))));
    assert(r1 =~= id_key() + (encode_nat(t.id) + r2));
    assert(r2[0] == ',');
    lemma_parse_field_id(t.id, r2);
    let r3 = description_key() + (escape(t.description) + (seq!['"'] + (seq![','] + (done_key()
        + (encode_bool(t.done) + (seq!['}'] + rest))))));
    assert(r2 =~= seq![','] + r3);
    lemma_expect_prefix(seq![','], r3);
    let r4 = seq![','] + (done_key() + (encode_bool(t.done) + (seq!['}'] + rest)));
    assert(r3 =~= description_key() + (escape(t.description) + (seq!['"'] + r4)));
    lemma_parse_field_description(t.description, r4);
    let r5 = done_key() + (encode_bool(t.done) + (seq!['}'] + rest));
    assert(r4 =~= seq![','] + r5);
    lemma_expect_prefix(seq![','], r5);
    let r6 = seq!['}'] + rest;
    lemma_parse_field_done(t.done, r6);
    lemma_expect_prefix(seq!['}'], rest);
    assert(parse_task(s) == Some((t, rest)));
}

/// A comma-joined run of records written by the encoder reads back as the
/// same sequence, as long as the text after it does not begin with a comma.
#[verifier::rlimit(50)]
proof fn lemma_parse_task_list_encode(ts: Seq<TaskView>, rest: Seq<char>)
    requires
        ts.len() > 0,
        rest.len() == 0 || rest[0] != ',',
    ensures
        parse_task_list(encode_list(ts) + rest) == Some((ts, rest)),
    decreases ts.len(),
{
    let s = encode_list(ts) + rest;
    if ts.len() == 1 {
        assert(s =~= encode_task(ts[0]) + rest);
        lemma_parse_task_encode(ts[0], rest);
        assert(seq![ts[0]] =~= ts);
    } else {
        let r = seq![','] + (encode_list(ts.drop_first()) + rest);
        assert(s =~= encode_task(ts[0]) + r);
        lemma_parse_task_encode(ts[0], r);
        assert(r[0] == ',');
        assert(r.drop_first() =~= encode_list(ts.drop_first()) + rest);
        lemma_parse_task_list_encode(ts.drop_first(), rest);
        assert(seq![ts[0]] + ts.drop_first() =~= ts);
    }
}

/// The encoded document of a nonempty sequence is longer than `"[]"`.
proof fn lemma_encode_list_nonempty(ts: Seq<TaskView>)
    requires
        ts.len() > 0,
    ensures
        encode_list(ts).len() >= 6,
{
    if ts.len() == 1 {
        assert(encode_list(ts) == encode_task(ts[0]));
    } else {
        assert(encode_list(ts) == encode_task(ts[0]) + seq![','] + encode_list(ts.drop_first()));
    }
}

/// Encoding then decoding is the identity on every task sequence, the empty
/// one included.
pub proof fn lemma_encode_decode_roundtrip(ts: Seq<TaskView>)
    ensures
        spec_decode(encode_tasks(ts)) == Some(ts),
{
    let s = encode_tasks(ts);
    let r = encode_list(ts) + seq![']'];
    assert(s =~= seq!['['] + r);
    lemma_expect_prefix(seq!['['], r);
    if ts.len() == 0 {
        assert(r =~= seq![']']);
    } else {
        lemma_encode_list_nonempty(ts);
        assert(r.len() >= 7);
        assert(r != seq![']']);
        lemma_parse_task_list_encode(ts, seq![']']);
        assert(parse_task_list(r) == Some((ts, seq![']'])));
    }
}

/// Decoding what `encode` wrote yields the encoded sequence back: together
/// with the contracts of `encode` and `decode`, the round trip is the
/// identity on every task sequence whose ids fit the machine's integer
/// range, the empty sequence included.
pub proof fn lemma_decode_of_encoded(ts: Seq<TaskView>, r: Result<Vec<Task>, DecodeError>)
    requires
        ids_fit(ts),
        decode_post(encode_tasks(ts), r),
    ensures
        r matches Ok(d) && task_views(d@) == ts,
{
    lemma_encode_decode_roundtrip(ts);
}

/// Relies on `String`'s `FromIterator<char>` implementation: collecting
/// characters yields the string of exactly those characters, in order.
#[verifier::external_body]
fn chars_to_string(v: Vec<char>) -> (r: String)
    ensures
        r@ == v@,
{
    v.into_iter().collect()
}

/// The decimal digit character for a value below ten.
fn digit_to_char(d: usize) -> (c: char)
    requires
        d < 10,
    ensures
        c == digit_char(d as nat),
{
    if d == 0 {
        '0'
    } else if d == 1 {
        '1'
    } else if d == 2 {
        '2'
    } else if d == 3 {
        '3'
    } else if d == 4 {
        '4'
    } else if d == 5 {
        '5'
    } else if d == 6 {
        '6'
    } else if d == 7 {
        '7'
    } else if d == 8 {
        '8'
    } else {
        '9'
    }
}

/// Appends the decimal digits of `n`.
fn push_digits(out: &mut Vec<char>, n: usize)
    ensures
        final(out)@ == old(out)@ + encode_nat(n as nat),
    decreases n,
{
    if n < 10 {
        out.push(digit_to_char(n));
        proof {
            assert(out@ =~= old(out)@ + encode_nat(n as nat));
        }
    } else {
        push_digits(out, n / 10);
        out.push(digit_to_char(n % 10));
        proof {
            assert(out@ =~= old(out)@ + encode_nat(n as nat));
        }
    }
}

/// `escape` distributes over appending one character at the end.
proof fn lemma_escape_snoc(d: Seq<char>, c: char)
    ensures
        escape(d.push(c)) == escape(d) + escape_char(c),
    decreases d.len(),
{
    if d.len() == 0 {
        assert(d.push(c) =~= seq![c]);
        assert(d.push(c).drop_first() =~= Seq::<char>::empty());
        assert(escape(Seq::<char>::empty()) == Seq::<char>::empty());
        assert(escape(d.push(c)) == escape_char(c) + Seq::<char>::empty());
        assert(escape(d.push(c)) =~= escape(d) + escape_char(c));
    } else {
        assert(d.push(c).drop_first() =~= d.drop_first().push(c));
        lemma_escape_snoc(d.drop_first(), c);
        assert(escape(d.push(c)) =~= escape(d) + escape_char(c));
    }
}

/// Appends the escaped description text.
fn push_escaped(out: &mut Vec<char>, s: &String)
    ensures
        final(out)@ == old(out)@ + escape(s@),
{
    let n = s.as_str().unicode_len();
    let mut i: usize = 0;
    while i < n
        invariant
            n == s@.len(),
            i <= n,
            out@ == old(out)@ + escape(s@.subrange(0, i as int)),
        decreases n - i,
    {
        let c = s.as_str().get_char(i);
        if c == '"' || c == '\\' {
            out.push('\\');
            out.push(c);
        } else {
            out.push(c);
        }
        proof {
            assert(s@.subrange(0, i as int + 1) =~= s@.subrange(0, i as int).push(s@[i as int]));
            lemma_escape_snoc(s@.subrange(0, i as int), s@[i as int]);
            assert(out@ =~= old(out)@ + escape(s@.subrange(0, i as int + 1)));
        }
        i += 1;
    }
    proof {
        assert(s@.subrange(0, n as int) =~= s@);
    }
}

/// Appends the fixed text that opens a record.
fn push_id_prefix(out: &mut Vec<char>)
    ensures
        final(out)@ == old(out)@ + id_prefix(),
{
    out.push('{');
    out.push('"');
    out.push('i');
    out.push('d');
    out.push('"');
    out.push(':');
    proof {
        assert(out@ =~= old(out)@ + id_prefix());
    }
}

/// Appends the fixed text that introduces the description field.
fn push_description_prefix(out: &mut Vec<char>)
    ensures
        final(out)@ == old(out)@ + description_prefix(),
{
    out.push(',');
    out.push('"');
    out.push('d');
    out.push('e');
    out.push('s');
    out.push('c');
    out.push('r');
    out.push('i');
    out.push('p');
    out.push('t');
    out.push('i');
    out.push('o');
    out.push('n');
    out.push('"');
    out.push(':');
    out.push('"');
    proof {
        assert(out@ =~= old(out)@ + description_prefix());
    }
}

/// Appends the closing quote of the description and the fixed text that
/// introduces the completion flag.
fn push_done_prefix(out: &mut Vec<char>)
    ensures
        final(out)@ == old(out)@ + seq!['"'] + done_prefix(),
{
    out.push('"');
    out.push(',');
    out.push('"');
    out.push('d');
    out.push('o');
    out.push('n');
    out.push('e');
    out.push('"');
    out.push(':');
    proof {
        assert(out@ =~= old(out)@ + seq!['"'] + done_prefix());
    }
}

/// Appends the encoded completion flag.
fn push_bool(out: &mut Vec<char>, b: bool)
    ensures
        final(out)@ == old(out)@ + encode_bool(b),
{
    if b {
        out.push('t');
        out.push('r');
        out.push('u');
        out.push('e');
    } else {
        out.push('f');
        out.push('a');
        out.push('l');
        out.push('s');
        out.push('e');
    }
    proof {
        assert(out@ =~= old(out)@ + encode_bool(b));
    }
}

/// Appends the encoded record of one task.
fn push_task(out: &mut Vec<char>, t: &Task)
    ensures
        final(out)@ == old(out)@ + encode_task(t@),
{
    push_id_prefix(out);
    push_digits(out, t.id);
    push_description_prefix(out);
    push_escaped(out, &t.description);
    push_done_prefix(out);
    push_bool(out, t.done);
    out.push('}');
    proof {
        assert(out@ =~= old(out)@ + encode_task(t@));
    }
}

/// `encode_list` distributes over appending one record at the end.
proof fn lemma_encode_list_snoc(ts: Seq<TaskView>, t: TaskView)
    ensures
        ts.len() == 0 ==> encode_list(ts.push(t)) == encode_task(t),
        ts.len() > 0 ==> encode_list(ts.push(t)) == encode_list(ts) + seq![','] + encode_task(t),
    decreases ts.len(),
{
    if ts.len() == 0 {
        assert(ts.push(t) =~= seq![t]);
        assert(encode_list(ts.push(t)) =~= encode_task(t));
    } else {
        assert(ts.push(t).drop_first() =~= ts.drop_first().push(t));
        lemma_encode_list_snoc(ts.drop_first(), t);
        if ts.len() == 1 {
            assert(encode_list(ts.push(t)) =~= encode_list(ts) + seq![','] + encode_task(t));
        } else {
            assert(encode_list(ts.push(t)) =~= encode_list(ts) + seq![','] + encode_task(t));
        }
    }
}

/// Encodes the task sequence as one textual document: a bracketed list of
/// records, each carrying the task's id, description and completion flag in
/// that fixed order.
pub fn encode(tasks: &Vec<Task>) -> (r: String)
    ensures
        r@ == encode_tasks(task_views(tasks@)),
{
    let mut out: Vec<char> = Vec::new();
    out.push('[');
    let n = tasks.len();
    let mut i: usize = 0;
    while i < n
        invariant
            n == tasks@.len(),
            i <= n,
            out@ == seq!['['] + encode_list(task_views(tasks@).take(i as int)),
        decreases n - i,
    {
        if i > 0 {
            out.push(',');
        }
        push_task(&mut out, &tasks[i]);
        proof {
            let views = task_views(tasks@);
            assert(views.take(i as int + 1) =~= views.take(i as int).push(views[i as int]));
            lemma_encode_list_snoc(views.take(i as int), views[i as int]);
            assert(out@ =~= seq!['['] + encode_list(views.take(i as int + 1)));
        }
        i += 1;
    }
    out.push(']');
    proof {
        assert(task_views(tasks@).take(n as int) =~= task_views(tasks@));
        assert(out@ =~= encode_tasks(task_views(tasks@)));
    }
    chars_to_string(out)
}

/// Whether `c` is a decimal digit.
fn is_digit_exec(c: char) -> (b: bool)
    ensures
        b == is_digit(c),
{
    c == '0' || c == '1' || c == '2' || c == '3' || c == '4' || c == '5' || c == '6' || c == '7'
        || c == '8' || c == '9'
}

/// The value of a decimal digit character.
fn digit_value_exec(c: char) -> (d: usize)
    requires
        is_digit(c),
    ensures
        d == digit_value(c),
{
    if c == '0' {
        0
    } else if c == '1' {
        1
    } else if c == '2' {
        2
    } else if c == '3' {
        3
    } else if c == '4' {
        4
    } else if c == '5' {
        5
    } else if c == '6' {
        6
    } else if c == '7' {
        7
    } else if c == '8' {
        8
    } else {
        9
    }
}

/// Folding digits never lowers the accumulator.
proof fn lemma_parse_nat_loop_lower(s: Seq<char>, acc: nat)
    ensures
        parse_nat_loop(s, acc).0 >= acc,
    decreases s.len(),
{
    if s.len() > 0 && is_digit(s[0]) {
        lemma_parse_nat_loop_lower(s.drop_first(), acc * 10 + digit_value(s[0]));
    }
}

/// Checks the fixed text `pat` at position `i`.
fn expect_str(s: &str, i: usize, pat: &str) -> (r: Option<usize>)
    requires
        i <= s@.len(),
    ensures
        match r {
            Some(j) => i <= j <= s@.len() && expect(s@.skip(i as int), pat@) == Some(
                s@.skip(j as int),
            ),
            None => expect(s@.skip(i as int), pat@) is None,
        },
{
    let len = s.unicode_len();
    let m = pat.unicode_len();
    if m > len - i {
        return None;
    }
    let mut k: usize = 0;
    while k < m
        invariant
            i <= s@.len(),
            len == s@.len(),
            m == pat@.len(),
            m <= len - i,
            k <= m,
            forall|l: int| 0 <= l < k ==> s@[i + l] == pat@[l],
        decreases m - k,
    {
        if s.get_char(i + k) != pat.get_char(k) {
            proof {
                assert(s@.skip(i as int).take(m as int)[k as int] == s@[i + k]);
            }
            return None;
        }
        k += 1;
    }
    proof {
        assert(s@.skip(i as int).take(m as int) =~= pat@);
        assert(s@.skip(i as int).skip(m as int) =~= s@.skip(i as int + m));
    }
    Some(i + m)
}

/// Reads a decimal number from position `j` onwards, folding digits onto
/// `acc`; fails when the value does not fit the machine's integer range.
fn parse_nat_loop_exec(s: &str, j: usize, acc: usize) -> (r: Option<(usize, usize)>)
    requires
        j <= s@.len(),
    ensures
        match r {
            Some((v, k)) => j <= k <= s@.len() && parse_nat_loop(s@.skip(j as int), acc as nat)
                == ((v as nat, s@.skip(k as int))),
            None => parse_nat_loop(s@.skip(j as int), acc as nat).0 > usize::MAX,
        },
    decreases s@.len() - j,
{
    let len = s.unicode_len();
    if j >= len {
        proof {
            assert(s@.skip(j as int) =~= Seq::<char>::empty());
        }
        return Some((acc, j));
    }
    let c = s.get_char(j);
    proof {
        assert(s@.skip(j as int)[0] == s@[j as int]);
    }
    if !is_digit_exec(c) {
        return Some((acc, j));
    }
    let d = digit_value_exec(c);
    proof {
        assert(s@.skip(j as int).drop_first() =~= s@.skip(j as int + 1));
    }
    let acc10 = match acc.checked_mul(10) {
        Some(v) => v,
        None => {
            proof {
                lemma_parse_nat_loop_lower(s@.skip(j as int + 1), acc as nat * 10 + d as nat);
            }
            return None;
        },
    };
    let acc2 = match acc10.checked_add(d) {
        Some(v) => v,
        None => {
            proof {
                lemma_parse_nat_loop_lower(s@.skip(j as int + 1), acc as nat * 10 + d as nat);
            }
            return None;
        },
    };
    parse_nat_loop_exec(s, j + 1, acc2)
}

/// Reads a decimal number at position `i`: at least one digit; fails when
/// none stands there or the value does not fit the machine's integer range.
fn parse_nat_exec(s: &str, i: usize) -> (r: Option<(usize, usize)>)
    requires
        i <= s@.len(),
    ensures
        match parse_nat(s@.skip(i as int)) {
            None => r is None,
            Some((n, rest)) => if n <= usize::MAX {
                r matches Some((v, j)) && v as nat == n && i <= j <= s@.len() && s@.skip(
                    j as int,
                ) == rest
            } else {
                r is None
            },
        },
{
    let len = s.unicode_len();
    if i >= len {
        proof {
            assert(s@.skip(i as int) =~= Seq::<char>::empty());
        }
        return None;
    }
    let c = s.get_char(i);
    proof {
        assert(s@.skip(i as int)[0] == s@[i as int]);
    }
    if !is_digit_exec(c) {
        return None;
    }
    parse_nat_loop_exec(s, i, 0)
}

/// Reads a description at position `i`, up to and including its closing
/// quote, undoing the escapes.
fn parse_string_exec(s: &str, i: usize) -> (r: Option<(Vec<char>, usize)>)
    requires
        i <= s@.len(),
    ensures
        match r {
            Some((d, j)) => i <= j <= s@.len() && parse_string(s@.skip(i as int)) == Some(
                (d@, s@.skip(j as int)),
            ),
            None => parse_string(s@.skip(i as int)) is None,
        },
    decreases s@.len() - i,
{
    let len = s.unicode_len();
    if i >= len {
        proof {
            assert(s@.skip(i as int) =~= Seq::<char>::empty());
        }
        return None;
    }
    let c = s.get_char(i);
    proof {
        assert(s@.skip(i as int)[0] == s@[i as int]);
    }
    if c == '"' {
        proof {
            assert(s@.skip(i as int).drop_first() =~= s@.skip(i as int + 1));
        }
        let v: Vec<char> = Vec::new();
        proof {
            assert(v@ =~= Seq::<char>::empty());
        }
        Some((v, i + 1))
    } else if c == '\\' {
        if i + 1 < len {
            let c2 = s.get_char(i + 1);
            if c2 == '"' || c2 == '\\' {
                proof {
                    assert(s@.skip(i as int).len() >= 2);
                    assert(s@.skip(i as int)[1] == s@[i as int + 1]);
                    assert(s@.skip(i as int).skip(2) =~= s@.skip(i as int + 2));
                }
                match parse_string_exec(s, i + 2) {
                    None => None,
                    Some((mut d, j)) => {
                        let ghost tail = d@;
                        d.insert(0, c2);
                        proof {
                            assert(d@ =~= seq![s@.skip(i as int)[1]] + tail);
                        }
                        Some((d, j))
                    },
                }
            } else {
                None
            }
        } else {
            proof {
                assert(s@.skip(i as int).len() < 2);
            }
            None
        }
    } else {
        proof {
            assert(s@.skip(i as int).drop_first() =~= s@.skip(i as int + 1));
        }
        match parse_string_exec(s, i + 1) {
            None => None,
            Some((mut d, j)) => {
                let ghost tail = d@;
                d.insert(0, c);
                proof {
                    assert(d@ =~= seq![s@.skip(i as int)[0]] + tail);
                }
                Some((d, j))
            },
        }
    }
}

/// Reads a completion flag at position `i`.
fn parse_bool_exec(s: &str, i: usize) -> (r: Option<(bool, usize)>)
    requires
        i <= s@.len(),
    ensures
        match parse_bool(s@.skip(i as int)) {
            None => r is None,
            Some((b, rest)) => r matches Some((v, j)) && v == b && i <= j <= s@.len() && s@.skip(
                j as int,
            ) == rest,
        },
{
    proof {
        reveal_strlit("true");
        reveal_strlit("false");
        assert("true"@ =~= encode_bool(true));
        assert("false"@ =~= encode_bool(false));
    }
    match expect_str(s, i, "true") {
        Some(j) => Some((true, j)),
        None => match expect_str(s, i, "false") {
            Some(j) => Some((false, j)),
            None => None,
        },
    }
}

/// One parsed record field, carried until the record is assembled.
enum ParsedField {
    Id(usize),
    Description(Vec<char>),
    Done(bool),
}

impl View for ParsedField {
    type V = FieldVal;

    closed spec fn view(&self) -> FieldVal {
        match self {
            ParsedField::Id(n) => FieldVal::Id(*n as nat),
            ParsedField::Description(d) => FieldVal::Description(d@),
            ParsedField::Done(b) => FieldVal::Done(*b),
        }
    }
}

/// Reads one record field at position `i`; fails when an id value does not
/// fit the machine's integer range.
fn parse_field_exec(s: &str, i: usize) -> (r: Option<(ParsedField, usize)>)
    requires
        i <= s@.len(),
    ensures
        match parse_field(s@.skip(i as int)) {
            None => r is None,
            Some((f, rest)) => if (f matches FieldVal::Id(n) && n > usize::MAX) {
                r is None
            } else {
                r matches Some((pf, j)) && pf@ == f && i <= j <= s@.len() && s@.skip(j as int)
                    == rest
            },
        },
{
    proof {
        reveal_strlit("\"id\":");
        assert("\"id\":"@ =~= id_key());
        reveal_strlit("\"description\":\"");
        assert("\"description\":\""@ =~= description_key());
        reveal_strlit("\"done\":");
        assert("\"done\":"@ =~= done_key());
    }
    match expect_str(s, i, "\"id\":") {
        Some(j) => match parse_nat_exec(s, j) {
            Some((v, k)) => Some((ParsedField::Id(v), k)),
            None => None,
        },
        None => match expect_str(s, i, "\"description\":\"") {
            Some(j) => match parse_string_exec(s, j) {
                Some((d, k)) => Some((ParsedField::Description(d), k)),
                None => None,
            },
            None => match expect_str(s, i, "\"done\":") {
                Some(j) => match parse_bool_exec(s, j) {
                    Some((b, k)) => Some((ParsedField::Done(b), k)),
                    None => None,
                },
                None => None,
            },
        },
    }
}

/// Reads one task record at position `i`; fails when its id does not fit
/// the machine's integer range.
#[verifier::rlimit(50)]
fn parse_task_exec(s: &str, i: usize) -> (r: Option<(Task, usize)>)
    requires
        i <= s@.len(),
    ensures
        match parse_task(s@.skip(i as int)) {
            None => r is None,
            Some((tv, rest)) => if tv.id <= usize::MAX {
                r matches Some((t, j)) && t@ == tv && i <= j <= s@.len() && s@.skip(j as int)
                    == rest
            } else {
                r is None
            },
        },
{
    proof {
        reveal_strlit("{");
        assert("{"@ =~= seq!['{']);
        reveal_strlit(",");
        assert(","@ =~= seq![',']);
        reveal_strlit("}");
        assert("}"@ =~= seq!['}']);
    }
    let i1 = match expect_str(s, i, "{") {
        None => return None,
        Some(j) => j,
    };
    let (f1, i2) = match parse_field_exec(s, i1) {
        None => return None,
        Some(p) => p,
    };
    let i3 = match expect_str(s, i2, ",") {
        None => return None,
        Some(j) => j,
    };
    let (f2, i4) = match parse_field_exec(s, i3) {
        None => return None,
        Some(p) => p,
    };
    let i5 = match expect_str(s, i4, ",") {
        None => return None,
        Some(j) => j,
    };
    let (f3, i6) = match parse_field_exec(s, i5) {
        None => return None,
        Some(p) => p,
    };
    let i7 = match expect_str(s, i6, "}") {
        None => return None,
        Some(j) => j,
    };
    match (f1, f2, f3) {
        (ParsedField::Id(n), ParsedField::Description(d), ParsedField::Done(b)) => Some(
            (Task { id: n, description: chars_to_string(d), done: b }, i7),
        ),
        (ParsedField::Id(n), ParsedField::Done(b), ParsedField::Description(d)) => Some(
            (Task { id: n, description: chars_to_string(d), done: b }, i7),
        ),
        (ParsedField::Description(d), ParsedField::Id(n), ParsedField::Done(b)) => Some(
            (Task { id: n, description: chars_to_string(d), done: b }, i7),
        ),
        (ParsedField::Description(d), ParsedField::Done(b), ParsedField::Id(n)) => Some(
            (Task { id: n, description: chars_to_string(d), done: b }, i7),
        ),
        (ParsedField::Done(b), ParsedField::Id(n), ParsedField::Description(d)) => Some(
            (Task { id: n, description: chars_to_string(d), done: b }, i7),
        ),
        (ParsedField::Done(b), ParsedField::Description(d), ParsedField::Id(n)) => Some(
            (Task { id: n, description: chars_to_string(d), done: b }, i7),
        ),
        _ => None,
    }
}

/// Reads comma-separated task records at position `i`: at least one; fails
/// when an id does not fit the machine's integer range.
#[verifier::rlimit(50)]
fn parse_task_list_exec(s: &str, i: usize) -> (r: Option<(Vec<Task>, usize)>)
    requires
        i <= s@.len(),
    ensures
        match parse_task_list(s@.skip(i as int)) {
            None => r is None,
            Some((ts, rest)) => if ids_fit(ts) {
                r matches Some((d, j)) && task_views(d@) == ts && i <= j <= s@.len() && s@.skip(
                    j as int,
                ) == rest
            } else {
                r is None
            },
        },
    decreases s@.len() - i,
{
    let (t, j) = match parse_task_exec(s, i) {
        None => {
            proof {
                let s0 = s@.skip(i as int);
                if parse_task(s0) is Some && parse_task_list(s0) is Some {
                    let (tv, rest) = parse_task(s0).unwrap();
                    let (ts, rest2) = parse_task_list(s0).unwrap();
                    assert(ts[0] == tv);
                    assert(!ids_fit(ts)) by {
                        assert(ts[0].id > usize::MAX);
                    }
                }
            }
            return None;
        },
        Some(p) => p,
    };
    let len = s.unicode_len();
    let continues = j < len && {
        let c = s.get_char(j);
        c == ','
    };
    proof {
        let s0 = s@.skip(i as int);
        let rest = parse_task(s0).unwrap().1;
        assert(rest == s@.skip(j as int));
        if j < len {
            assert(rest[0] == s@[j as int]);
        }
    }
    if continues {
        proof {
            lemma_parse_task_consumes(s@.skip(i as int));
            assert(s@.skip(j as int).drop_first() =~= s@.skip(j as int + 1));
        }
        match parse_task_list_exec(s, j + 1) {
            None => {
                proof {
                    let s0 = s@.skip(i as int);
                    let s1 = s@.skip(j as int + 1);
                    if parse_task_list(s1) is Some && parse_task_list(s0) is Some {
                        let (ts2, r2) = parse_task_list(s1).unwrap();
                        let (ts, r) = parse_task_list(s0).unwrap();
                        assert(ts =~= seq![t@] + ts2);
                        if !ids_fit(ts2) {
                            let k = choose|k: int|
                                !(0 <= k < ts2.len() ==> (#[trigger] ts2[k]).id <= usize::MAX);
                            assert(ts[k + 1] == ts2[k]);
                            assert(!ids_fit(ts));
                        }
                    }
                }
                None
            },
            Some((mut d, j2)) => {
                let ghost tail = d@;
                d.insert(0, t);
                proof {
                    assert(task_views(d@) =~= seq![t@] + task_views(tail));
                }
                Some((d, j2))
            },
        }
    } else {
        let mut d: Vec<Task> = Vec::new();
        d.push(t);
        proof {
            assert(task_views(d@) =~= seq![t@]);
        }
        Some((d, j))
    }
}

/// Decodes a textual document back into tasks: brackets around
/// comma-separated records, each holding the three fields in any order.
/// Fails on malformed structure, a missing or repeated field, a wrong value
/// shape, or an id beyond the machine's integer range; accepts any id
/// values, duplicates and gaps included.
pub fn decode(s: &str) -> (r: Result<Vec<Task>, DecodeError>)
    ensures
        decode_post(s@, r),
{
    proof {
        reveal_strlit("[");
        assert("["@ =~= seq!['[']);
        assert(s@.skip(0) =~= s@);
    }
    let len = s.unicode_len();
    let i1 = match expect_str(s, 0, "[") {
        None => return Err(DecodeError),
        Some(j) => j,
    };
    if i1 < len && i1 + 1 == len {
        if s.get_char(i1) == ']' {
            proof {
                assert(s@.skip(i1 as int) =~= seq![']']);
            }
            let d: Vec<Task> = Vec::new();
            proof {
                assert(task_views(d@) =~= Seq::<TaskView>::empty());
            }
            return Ok(d);
        }
    }
    proof {
        assert(s@.skip(i1 as int) != seq![']']) by {
            if s@.skip(i1 as int) == seq![']'] {
                assert(s@.skip(i1 as int).len() == 1);
                assert(s@.skip(i1 as int)[0] == s@[i1 as int]);
                assert(s@[i1 as int] == ']');
            }
        }
    }
    let (d, j) = match parse_task_list_exec(s, i1) {
        None => {
            proof {
                let r0 = s@.skip(i1 as int);
                assert(s@.skip(0) == s@);
                assert("["@ == seq!['[']);
                assert(expect(s@, seq!['[']) == Some(r0));
                assert(r0 != seq![']']);
                if parse_task_list(r0) is Some {
                    let (ts, r2) = parse_task_list(r0).unwrap();
                    if r2 == seq![']'] {
                        assert(spec_decode(s@) == Some(ts));
                        assert(!ids_fit(ts));
                    } else {
                        assert(spec_decode(s@) is None);
                    }
                } else {
                    assert(spec_decode(s@) is None);
                }
                assert(decode_post(s@, Err(DecodeError)));
            }
            return Err(DecodeError);
        },
        Some(p) => p,
    };
    if j < len && j + 1 == len {
        if s.get_char(j) == ']' {
            proof {
                assert(s@.skip(j as int) =~= seq![']']);
            }
            return Ok(d);
        }
    }
    proof {
        assert(s@.skip(j as int) != seq![']']) by {
            if s@.skip(j as int) == seq![']'] {
                assert(s@.skip(j as int).len() == 1);
                assert(s@.skip(j as int)[0] == s@[j as int]);
                assert(s@[j as int] == ']');
            }
        }
    }
    Err(DecodeError)
}

/// The load path of the startup sequence: absence of the save file, and a
/// text that does not decode, both degrade to the empty task list rather
/// than surfacing an error.
pub fn load_or_empty(contents: Option<&str>) -> (r: Vec<Task>)
    ensures
        match contents {
            None => r@.len() == 0,
            Some(s) => match spec_decode(s@) {
                None => r@.len() == 0,
                Some(ts) => if ids_fit(ts) {
                    task_views(r@) == ts
                } else {
                    r@.len() == 0
                },
            },
        },
{
    match contents {
        None => Vec::new(),
        Some(s) => match decode(s) {
            Ok(d) => d,
            Err(_) => Vec::new(),
        },
    }
}

} // verus!
