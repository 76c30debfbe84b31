//! Deterministic generators for test data: account labels, amounts, filler
//! texts, timestamps, the standard test schema and whole rows over it.

use vstd::prelude::*;
use vstd::string::{StrSliceExecFns, StringExecFns};
use crate::model::{ConvertedType, FieldValue, PhysicalType, Row, Schema, SchemaField};
use crate::text::{digit_str, spec_digits, spec_letter_char, letter_str, u64_to_string};

verus! {

/// Number of consecutive rows that share one account label.
pub const NUM_TX_PER_ACCOUNT: u64 = 10;

/// Seed multiplier for the filler-text generator.
pub const TEXT_SEED_BASE: u64 = 123456789;

/// Epoch seconds of the first generated timestamp.
pub const TIMEBASE: i64 = 1644537600;

/// Milliseconds step between generated timestamps.
pub const TIME_MULTIPLIER: i64 = 10_000;

/// Base-26 rendering of a number: `cnt` letters, least significant last.
pub open spec fn spec_label(i: nat, cnt: nat) -> Seq<char>
    decreases cnt,
{
    if cnt == 0 {
        Seq::empty()
    } else {
        spec_label(i / 26, (cnt - 1) as nat) + seq![spec_letter_char(i % 26)]
    }
}

/// A label has as many characters as were asked for, all ASCII letters.
pub proof fn lemma_label_shape(i: nat, cnt: nat)
    ensures
        spec_label(i, cnt).len() == cnt,
        vstd::utf8::is_ascii_chars(spec_label(i, cnt)),
    decreases cnt,
{
    if cnt > 0 {
        lemma_label_shape(i / 26, (cnt - 1) as nat);
        assert forall|k: int| 0 <= k < spec_label(i, cnt).len() implies '\0' <= #[trigger] spec_label(
            i,
            cnt,
        )[k] <= '\u{7f}' by {
            if k == cnt - 1 {
                assert(spec_label(i, cnt)[k] == spec_letter_char(i % 26));
            } else {
                assert(spec_label(i, cnt)[k] == spec_label(i / 26, (cnt - 1) as nat)[k]);
            }
        }
    }
}

/// The letter-index stack rendered last-pushed-first.
pub open spec fn spec_rev_letter_chars(ds: Seq<u64>) -> Seq<char>
    decreases ds.len(),
{
    if ds.len() == 0 {
        Seq::empty()
    } else {
        seq![spec_letter_char((ds.last() % 26) as nat)] + spec_rev_letter_chars(ds.drop_last())
    }
}

/// Peeling the first pushed letter index appends its character at the end.
proof fn lemma_rev_letter_chars_first(ds: Seq<u64>)
    requires
        ds.len() > 0,
    ensures
        spec_rev_letter_chars(ds) == spec_rev_letter_chars(ds.drop_first()) + seq![
            spec_letter_char((ds.first() % 26) as nat),
        ],
    decreases ds.len(),
{
    if ds.len() == 1 {
        assert(ds.drop_last() =~= Seq::<u64>::empty());
        assert(ds.drop_first() =~= Seq::<u64>::empty());
        assert(ds.last() == ds.first());
        assert(spec_rev_letter_chars(ds) =~= spec_rev_letter_chars(ds.drop_first()) + seq![
            spec_letter_char((ds.first() % 26) as nat),
        ]);
    } else {
        lemma_rev_letter_chars_first(ds.drop_last());
        assert(ds.drop_last().drop_first() =~= ds.drop_first().drop_last());
        assert(ds.drop_first().last() == ds.last());
        assert(ds.drop_last().first() == ds.first());
        assert(spec_rev_letter_chars(ds) =~= spec_rev_letter_chars(ds.drop_first()) + seq![
            spec_letter_char((ds.first() % 26) as nat),
        ]);
    }
}

/// The six-letter account label of a row number: every `NUM_TX_PER_ACCOUNT`
/// consecutive row numbers share one label.
pub fn make_label(idx: u64) -> (r: String)
    ensures
        r@ == spec_label((idx / NUM_TX_PER_ACCOUNT) as nat, 6),
{
    let ghost start = (idx / NUM_TX_PER_ACCOUNT) as nat;
    let mut i: u64 = idx / NUM_TX_PER_ACCOUNT;
    let mut acc: Vec<u64> = Vec::new();
    let mut cnt: usize = 0;
    proof {
        assert(spec_rev_letter_chars(acc@) =~= Seq::<char>::empty());
        assert(spec_label(start, 6) =~= spec_label(i as nat, 6) + spec_rev_letter_chars(acc@));
    }
    while cnt < 6
        invariant
            0 <= cnt <= 6,
            forall|k: int| 0 <= k < acc@.len() ==> #[trigger] acc@[k] < 26,
            spec_label(start, 6) == spec_label(i as nat, (6 - cnt) as nat) + spec_rev_letter_chars(
                acc@,
            ),
        decreases 6 - cnt,
    {
        let ghost acc_before = acc@;
        let d = i % 26;
        acc.push(d);
        proof {
            assert(acc@.drop_last() =~= acc_before);
            assert(spec_rev_letter_chars(acc@) =~= seq![spec_letter_char((d % 26) as nat)]
                + spec_rev_letter_chars(acc_before));
            assert(spec_label(i as nat, (6 - cnt) as nat) == spec_label(
                (i / 26) as nat,
                (6 - cnt - 1) as nat,
            ) + seq![spec_letter_char((i % 26) as nat)]);
            assert(spec_label(start, 6) =~= spec_label((i / 26) as nat, (6 - cnt - 1) as nat)
                + spec_rev_letter_chars(acc@));
        }
        i = i / 26;
        cnt = cnt + 1;
    }
    proof {
        assert(spec_label(i as nat, 0) =~= Seq::<char>::empty());
        assert(spec_label(start, 6) =~= spec_rev_letter_chars(acc@));
    }
    let mut r = String::new();
    let mut k: usize = acc.len();
    while k > 0
        invariant
            k <= acc@.len(),
            forall|j: int| 0 <= j < acc@.len() ==> #[trigger] acc@[j] < 26,
            r@ == spec_rev_letter_chars(acc@.skip(k as int)),
            spec_label(start, 6) == spec_rev_letter_chars(acc@),
        decreases k,
    {
        k = k - 1;
        r.append(letter_str(acc[k]));
        proof {
            let s = acc@.skip(k as int);
            assert(s.first() == acc@[k as int]);
            assert(s.drop_first() =~= acc@.skip(k as int + 1));
            lemma_rev_letter_chars_first(s);
            assert(acc@[k as int] % 26 == acc@[k as int]);
        }
    }
    proof {
        assert(acc@.skip(0) =~= acc@);
    }
    r
}

/// The amount of a row number: its position within the account, centred
/// around zero.
pub fn find_amount(idx: u64) -> (r: i32)
    ensures
        r == idx as int % NUM_TX_PER_ACCOUNT as int - NUM_TX_PER_ACCOUNT as int / 2 + 1,
{
    (idx % NUM_TX_PER_ACCOUNT) as i32 - (NUM_TX_PER_ACCOUNT as i32) / 2 + 1
}

/// Pseudo-random filler text: `cnt` letters drawn by halving a seed.
pub open spec fn spec_text_chars(seed: nat, cnt: nat) -> Seq<char>
    decreases cnt,
{
    if cnt == 0 {
        Seq::empty()
    } else {
        seq![spec_letter_char(seed % 26)] + spec_text_chars(seed / 2, (cnt - 1) as nat)
    }
}

/// Filler texts are ASCII letters of the requested length.
pub proof fn lemma_text_shape(seed: nat, cnt: nat)
    ensures
        spec_text_chars(seed, cnt).len() == cnt,
        vstd::utf8::is_ascii_chars(spec_text_chars(seed, cnt)),
    decreases cnt,
{
    if cnt > 0 {
        lemma_text_shape(seed / 2, (cnt - 1) as nat);
        assert forall|k: int|
            0 <= k < spec_text_chars(seed, cnt).len() implies '\0' <= #[trigger] spec_text_chars(
            seed,
            cnt,
        )[k] <= '\u{7f}' by {
            if k == 0 {
                assert(spec_text_chars(seed, cnt)[k] == spec_letter_char(seed % 26));
            } else {
                assert(spec_text_chars(seed, cnt)[k] == spec_text_chars(
                    seed / 2,
                    (cnt - 1) as nat,
                )[k - 1]);
            }
        }
    }
}

/// The hundred-letter filler text of a column and row number.
pub fn find_text(col: i16, idx: u64) -> (r: String)
    requires
        0 <= col,
        idx <= 0x7fff_ffff_ffff_ffff,
    ensures
        r@ == spec_text_chars((col * TEXT_SEED_BASE + idx) as nat, 100),
{
    let ghost seed0 = (col * TEXT_SEED_BASE + idx) as nat;
    let mut seed: u64 = col as u64 * TEXT_SEED_BASE + idx;
    let mut r = String::new();
    let mut cnt: usize = 0;
    proof {
        assert(r@ + spec_text_chars(seed as nat, 100) =~= spec_text_chars(seed0, 100));
    }
    while cnt < 100
        invariant
            0 <= cnt <= 100,
            r@ + spec_text_chars(seed as nat, (100 - cnt) as nat) == spec_text_chars(seed0, 100),
        decreases 100 - cnt,
    {
        let d = seed % 26;
        r.append(letter_str(d));
        proof {
            assert(spec_text_chars(seed as nat, (100 - cnt) as nat) == seq![
                spec_letter_char((seed % 26) as nat),
            ] + spec_text_chars((seed / 2) as nat, (100 - cnt - 1) as nat));
            assert(r@ + spec_text_chars((seed / 2) as nat, (100 - cnt - 1) as nat)
                =~= spec_text_chars(seed0, 100));
        }
        seed = seed / 2;
        cnt = cnt + 1;
    }
    proof {
        assert(spec_text_chars(seed as nat, 0) =~= Seq::<char>::empty());
        assert(r@ + Seq::<char>::empty() =~= r@);
    }
    r
}

/// The timestamp of a row number: milliseconds advancing in fixed steps
/// from the time base.
pub fn find_time(idx: u64) -> (r: i64)
    requires
        idx <= 900_000_000_000_000,
    ensures
        r == (idx as int + TIMEBASE as int) * TIME_MULTIPLIER as int,
{
    ((idx as i64) + TIMEBASE) * TIME_MULTIPLIER
}

/// A number rendered with at least two decimal digits.
pub open spec fn spec_pad2(n: nat) -> Seq<char> {
    if n < 10 {
        seq!['0'] + spec_digits(n)
    } else {
        spec_digits(n)
    }
}

/// Render a column number with at least two digits.
fn pad2(n: u64) -> (r: String)
    ensures
        r@ == spec_pad2(n as nat),
{
    proof {
        reveal_strlit("0");
    }
    if n < 10 {
        let mut r = "0".to_owned();
        r.append(digit_str(n));
        proof {
            assert(r@ =~= spec_pad2(n as nat));
        }
        r
    } else {
        u64_to_string(n)
    }
}

/// The name of extra column `n`.
pub open spec fn spec_extra_name(n: nat) -> Seq<char> {
    "extra_"@ + spec_pad2(n)
}

/// The standard test schema: id, account, amount and datetime, followed by
/// the requested number of extra text columns.
pub fn get_test_schema(num_extra_columns: i16) -> (r: Schema)
    ensures
        r.fields@.len() == 4 + (if num_extra_columns > 0 {
            num_extra_columns as int
        } else {
            0
        }),
        r.fields@[0].name@ == "id"@ && r.fields@[0].physical == PhysicalType::Int64
            && r.fields@[0].converted == ConvertedType::Plain,
        r.fields@[1].name@ == "account"@ && r.fields@[1].physical == PhysicalType::ByteArray
            && r.fields@[1].converted == ConvertedType::Utf8,
        r.fields@[2].name@ == "amount"@ && r.fields@[2].physical == PhysicalType::Int32
            && r.fields@[2].converted == ConvertedType::Plain,
        r.fields@[3].name@ == "datetime"@ && r.fields@[3].physical == PhysicalType::Int64
            && r.fields@[3].converted == ConvertedType::TimestampMillis,
        forall|i: int|
            4 <= i < r.fields@.len() ==> (#[trigger] r.fields@[i]).name@ == spec_extra_name(
                (i - 4) as nat,
            ) && r.fields@[i].physical == PhysicalType::ByteArray && r.fields@[i].converted
                == ConvertedType::Utf8,
{
    let mut fields: Vec<SchemaField> = Vec::new();
    fields.push(
        SchemaField {
            name: "id".to_owned(),
            physical: PhysicalType::Int64,
            converted: ConvertedType::Plain,
        },
    );
    fields.push(
        SchemaField {
            name: "account".to_owned(),
            physical: PhysicalType::ByteArray,
            converted: ConvertedType::Utf8,
        },
    );
    fields.push(
        SchemaField {
            name: "amount".to_owned(),
            physical: PhysicalType::Int32,
            converted: ConvertedType::Plain,
        },
    );
    fields.push(
        SchemaField {
            name: "datetime".to_owned(),
            physical: PhysicalType::Int64,
            converted: ConvertedType::TimestampMillis,
        },
    );
    let mut c: i16 = 0;
    while c < num_extra_columns
        invariant
            0 <= c <= (if num_extra_columns > 0 { num_extra_columns as int } else { 0 }),
            fields@.len() == 4 + c,
            fields@[0].name@ == "id"@ && fields@[0].physical == PhysicalType::Int64
                && fields@[0].converted == ConvertedType::Plain,
            fields@[1].name@ == "account"@ && fields@[1].physical == PhysicalType::ByteArray
                && fields@[1].converted == ConvertedType::Utf8,
            fields@[2].name@ == "amount"@ && fields@[2].physical == PhysicalType::Int32
                && fields@[2].converted == ConvertedType::Plain,
            fields@[3].name@ == "datetime"@ && fields@[3].physical == PhysicalType::Int64
                && fields@[3].converted == ConvertedType::TimestampMillis,
            forall|i: int|
                4 <= i < fields@.len() ==> (#[trigger] fields@[i]).name@ == spec_extra_name(
                    (i - 4) as nat,
                ) && fields@[i].physical == PhysicalType::ByteArray && fields@[i].converted
                    == ConvertedType::Utf8,
        decreases num_extra_columns - c,
    {
        let mut name = "extra_".to_owned();
        let suffix = pad2(c as u64);
        name.append(suffix.as_str());
        fields.push(
            SchemaField {
                name,
                physical: PhysicalType::ByteArray,
                converted: ConvertedType::Utf8,
            },
        );
        c = c + 1;
    }
    Schema { fields }
}

/// The ASCII bytes of a character sequence.
pub open spec fn spec_ascii_bytes(s: Seq<char>) -> Seq<u8> {
    Seq::new(s.len(), |i: int| s[i] as u8)
}

/// The bytes of an all-ASCII string.
fn ascii_bytes_of(s: &String) -> (r: Vec<u8>)
    requires
        vstd::utf8::is_ascii_chars(s@),
    ensures
        r@ == spec_ascii_bytes(s@),
{
    let sl = s.as_str();
    let r = sl.as_bytes_vec();
    proof {
        vstd::string::is_ascii_spec_bytes(sl);
        assert(vstd::string::is_ascii(sl));
        assert(r@ =~= spec_ascii_bytes(s@));
    }
    r
}

/// One generated row over the test schema: its id, the derived account
/// label, amount and timestamp, and the requested number of filler texts.
pub fn test_parquet_row(idx: u64, num_extra_columns: i16) -> (r: Row)
    requires
        idx <= 900_000_000_000_000,
    ensures
        r.fields@.len() == 4 + (if num_extra_columns > 0 {
            num_extra_columns as int
        } else {
            0
        }),
        r.fields@[0].0@ == "id"@ && r.fields@[0].1 == FieldValue::I64(idx as i64),
        r.fields@[1].0@ == "account"@ && (r.fields@[1].1 matches FieldValue::Text(b) && b@
            == spec_ascii_bytes(spec_label((idx / NUM_TX_PER_ACCOUNT) as nat, 6))),
        r.fields@[2].0@ == "amount"@ && (r.fields@[2].1 matches FieldValue::I32(a) && a == idx as int
            % NUM_TX_PER_ACCOUNT as int - NUM_TX_PER_ACCOUNT as int / 2 + 1),
        r.fields@[3].0@ == "datetime"@ && (r.fields@[3].1 matches FieldValue::TsMillis(t) && t == (
        idx as int + TIMEBASE as int) * TIME_MULTIPLIER as int),
        forall|i: int|
            4 <= i < r.fields@.len() ==> (#[trigger] r.fields@[i]).0@ == spec_extra_name(
                (i - 4) as nat,
            ) && (r.fields@[i].1 matches FieldValue::Text(b) && b@ == spec_ascii_bytes(
                spec_text_chars(((i - 4) * TEXT_SEED_BASE as int + idx) as nat, 100),
            )),
{
    let label = make_label(idx);
    proof {
        lemma_label_shape((idx / NUM_TX_PER_ACCOUNT) as nat, 6);
    }
    let label_bytes = ascii_bytes_of(&label);
    let amount = find_amount(idx);
    let time = find_time(idx);
    let mut fields: Vec<(String, FieldValue)> = Vec::new();
    fields.push(("id".to_owned(), FieldValue::I64(idx as i64)));
    fields.push(("account".to_owned(), FieldValue::Text(label_bytes)));
    fields.push(("amount".to_owned(), FieldValue::I32(amount)));
    fields.push(("datetime".to_owned(), FieldValue::TsMillis(time)));
    let mut c: i16 = 0;
    while c < num_extra_columns
        invariant
            idx <= 900_000_000_000_000,
            0 <= c <= (if num_extra_columns > 0 { num_extra_columns as int } else { 0 }),
            fields@.len() == 4 + c,
            fields@[0].0@ == "id"@ && fields@[0].1 == FieldValue::I64(idx as i64),
            fields@[1].0@ == "account"@ && (fields@[1].1 matches FieldValue::Text(b) && b@
                == spec_ascii_bytes(spec_label((idx / NUM_TX_PER_ACCOUNT) as nat, 6))),
            fields@[2].0@ == "amount"@ && (fields@[2].1 matches FieldValue::I32(a) && a == idx as int
                % NUM_TX_PER_ACCOUNT as int - NUM_TX_PER_ACCOUNT as int / 2 + 1),
            fields@[3].0@ == "datetime"@ && (fields@[3].1 matches FieldValue::TsMillis(t) && t == (
            idx as int + TIMEBASE as int) * TIME_MULTIPLIER as int),
            forall|i: int|
                4 <= i < fields@.len() ==> (#[trigger] fields@[i]).0@ == spec_extra_name(
                    (i - 4) as nat,
                ) && (fields@[i].1 matches FieldValue::Text(b) && b@ == spec_ascii_bytes(
                    spec_text_chars(((i - 4) * TEXT_SEED_BASE as int + idx) as nat, 100),
                )),
        decreases num_extra_columns - c,
    {
        let mut name = "extra_".to_owned();
        let suffix = pad2(c as u64);
        name.append(suffix.as_str());
        let text = find_text(c, idx);
        proof {
            lemma_text_shape((c * TEXT_SEED_BASE + idx) as nat, 100);
        }
        let bytes = ascii_bytes_of(&text);
        fields.push((name, FieldValue::Text(bytes)));
        c = c + 1;
    }
    Row { fields }
}

} // verus!
