//! The persisted form of an account, as a mathematical function from the
//! account to its bytes and back.
//!
//! A document is the five header bytes (four that mark it as a ledger and
//! one that gives the version of the layout), then the name, the currency,
//! the number of records, and the records one after the other. A number is
//! eight bytes, least significant first. A text is the number of its UTF-8
//! bytes and then those bytes. A record is its kind (one byte), the year
//! counted from the earliest year (a number), month and day (one byte
//! each), the amount (a number), the description (a text), the number of
//! tags and the tags (a text each, in ascending order). Nothing may follow
//! the last record.

use crate::account::AccountView;
use crate::date::{Date, MIN_YEAR};
use crate::tags::lemma_ascending_unique;
use crate::transaction::{ItemView, Kind, TransactionView};
use vstd::bytes::*;
use vstd::prelude::*;
use vstd::utf8::*;

verus! {

/// The bytes every document of the supported version starts with.
pub open spec fn header() -> Seq<u8> {
    seq![0x4cu8, 0x44u8, 0x47u8, 0x52u8, 1u8]
}

pub open spec fn enc_u64(x: u64) -> Seq<u8> {
    spec_u64_to_le_bytes(x)
}

/// Reads a number from the front of `s`: the number, and what follows it.
pub open spec fn dec_u64(s: Seq<u8>) -> Option<(u64, Seq<u8>)> {
    if s.len() >= 8 {
        Some((spec_u64_from_le_bytes(s.take(8)), s.skip(8)))
    } else {
        None
    }
}

/// Reads one byte from the front of `s`.
pub open spec fn dec_u8(s: Seq<u8>) -> Option<(u8, Seq<u8>)> {
    if s.len() >= 1 {
        Some((s[0], s.skip(1)))
    } else {
        None
    }
}

/// Whether a text is short enough for its length to be written as a number.
pub open spec fn text_fits(t: Seq<char>) -> bool {
    encode_utf8(t).len() <= u64::MAX
}

pub open spec fn enc_text(t: Seq<char>) -> Seq<u8> {
    enc_u64(encode_utf8(t).len() as u64) + encode_utf8(t)
}

/// Reads a text from the front of `s`; `None` where the bytes announced are
/// not all there or are not UTF-8.
pub open spec fn dec_text(s: Seq<u8>) -> Option<(Seq<char>, Seq<u8>)> {
    match dec_u64(s) {
        Some((n, rest)) => if n <= rest.len() && valid_utf8(rest.take(n as int)) {
            Some((decode_utf8(rest.take(n as int)), rest.skip(n as int)))
        } else {
            None
        },
        None => None,
    }
}

/// The items of a list one after the other, each written by `enc`.
pub open spec fn enc_list<T>(items: Seq<T>, enc: spec_fn(T) -> Seq<u8>) -> Seq<u8>
    decreases items.len(),
{
    if items.len() == 0 {
        Seq::empty()
    } else {
        enc_list(items.drop_last(), enc) + enc(items.last())
    }
}

/// Reads `n` items from the front of `s`, each by `dec`, and puts them
/// behind `acc`.
pub open spec fn dec_list<T>(
    s: Seq<u8>,
    n: nat,
    acc: Seq<T>,
    dec: spec_fn(Seq<u8>) -> Option<(T, Seq<u8>)>,
) -> Option<(Seq<T>, Seq<u8>)>
    decreases n,
{
    if n == 0 {
        Some((acc, s))
    } else {
        match dec(s) {
            Some((item, rest)) => dec_list(rest, (n - 1) as nat, acc.push(item), dec),
            None => None,
        }
    }
}

pub open spec fn text_encoder() -> spec_fn(Seq<char>) -> Seq<u8> {
    |t: Seq<char>| enc_text(t)
}

pub open spec fn text_decoder() -> spec_fn(Seq<u8>) -> Option<(Seq<char>, Seq<u8>)> {
    |s: Seq<u8>| dec_text(s)
}

pub open spec fn enc_texts(list: Seq<Seq<char>>) -> Seq<u8> {
    enc_list(list, text_encoder())
}

pub open spec fn dec_texts(s: Seq<u8>, n: nat, acc: Seq<Seq<char>>) -> Option<
    (Seq<Seq<char>>, Seq<u8>),
> {
    dec_list(s, n, acc, text_decoder())
}

pub open spec fn kind_code(kind: Kind) -> u8 {
    match kind {
        Kind::Income => 0,
        Kind::Spending => 1,
    }
}

/// Whether every text of a record is short enough to be written, and its
/// tags are few enough to be counted.
pub open spec fn record_fits(t: TransactionView) -> bool {
    &&& text_fits(t.item.description)
    &&& t.item.tags.len() <= u64::MAX
    &&& forall|i: int| 0 <= i < t.item.tags.len() ==> text_fits(#[trigger] t.item.tags[i])
}

pub open spec fn enc_kind(kind: Kind) -> Seq<u8> {
    seq![kind_code(kind)]
}

pub open spec fn dec_kind(s: Seq<u8>) -> Option<(Kind, Seq<u8>)> {
    match dec_u8(s) {
        Some((code, rest)) => if code == 0 {
            Some((Kind::Income, rest))
        } else if code == 1 {
            Some((Kind::Spending, rest))
        } else {
            None
        },
        None => None,
    }
}

pub open spec fn enc_date(date: Date) -> Seq<u8> {
    enc_u64((date.year - MIN_YEAR) as u64) + seq![date.month, date.day]
}

/// Reads a date from the front of `s`; `None` where the bytes run out or
/// the year lies behind the latest year.
pub open spec fn dec_date(s: Seq<u8>) -> Option<(Date, Seq<u8>)> {
    match dec_u64(s) {
        Some((year, rest)) => if year <= 19998 && rest.len() >= 2 {
            Some((Date { year: (year + MIN_YEAR) as i32, month: rest[0], day: rest[1] }, rest.skip(2)))
        } else {
            None
        },
        None => None,
    }
}

pub open spec fn enc_tags(tags: Seq<Seq<char>>) -> Seq<u8> {
    enc_u64(tags.len() as u64) + enc_texts(tags)
}

pub open spec fn dec_tags(s: Seq<u8>) -> Option<(Seq<Seq<char>>, Seq<u8>)> {
    match dec_u64(s) {
        Some((count, rest)) => dec_texts(rest, count as nat, Seq::empty()),
        None => None,
    }
}

pub open spec fn enc_record(t: TransactionView) -> Seq<u8> {
    enc_kind(t.kind) + enc_date(t.item.date) + enc_u64(t.item.amount as u64) + enc_text(
        t.item.description,
    ) + enc_tags(t.item.tags)
}

/// Reads a record from the front of `s`; `None` where the bytes run out,
/// a field is out of its range, or the record read is not valid.
#[verifier::opaque]
pub open spec fn dec_record(s: Seq<u8>) -> Option<(TransactionView, Seq<u8>)> {
    match dec_kind(s) {
        Some((kind, s1)) => match dec_date(s1) {
            Some((date, s2)) => match dec_u64(s2) {
                Some((amount, s3)) => match dec_text(s3) {
                    Some((description, s4)) => match dec_tags(s4) {
                        Some((tags, s5)) => {
                            let t = TransactionView {
                                kind,
                                item: ItemView { date, amount: amount as int, description, tags },
                            };
                            if t.valid() {
                                Some((t, s5))
                            } else {
                                None
                            }
                        },
                        None => None,
                    },
                    None => None,
                },
                None => None,
            },
            None => None,
        },
        None => None,
    }
}

pub open spec fn record_encoder() -> spec_fn(TransactionView) -> Seq<u8> {
    |t: TransactionView| enc_record(t)
}

pub open spec fn record_decoder() -> spec_fn(Seq<u8>) -> Option<(TransactionView, Seq<u8>)> {
    |s: Seq<u8>| dec_record(s)
}

pub open spec fn enc_records(list: Seq<TransactionView>) -> Seq<u8> {
    enc_list(list, record_encoder())
}

pub open spec fn dec_records(s: Seq<u8>, n: nat, acc: Seq<TransactionView>) -> Option<
    (Seq<TransactionView>, Seq<u8>),
> {
    dec_list(s, n, acc, record_decoder())
}

/// Whether an account can be written: its texts are short enough and its
/// records few enough.
pub open spec fn account_fits(account: AccountView) -> bool {
    &&& text_fits(account.name)
    &&& text_fits(account.currency)
    &&& account.records.len() <= u64::MAX
    &&& forall|i: int| 0 <= i < account.records.len() ==> record_fits(#[trigger] account.records[i])
}

/// What follows the header: the name, the currency, the number of records
/// and the records.
pub open spec fn enc_body(account: AccountView) -> Seq<u8> {
    enc_text(account.name) + enc_text(account.currency) + enc_u64(account.records.len() as u64)
        + enc_records(account.records)
}

/// Reads what follows the header from the front of `s`.
#[verifier::opaque]
pub open spec fn dec_body(s: Seq<u8>) -> Option<(AccountView, Seq<u8>)> {
    match dec_text(s) {
        Some((name, s1)) => match dec_text(s1) {
            Some((currency, s2)) => match dec_u64(s2) {
                Some((count, s3)) => match dec_records(s3, count as nat, Seq::empty()) {
                    Some((records, rest)) => Some((AccountView { name, currency, records }, rest)),
                    None => None,
                },
                None => None,
            },
            None => None,
        },
        None => None,
    }
}

/// The persisted form of an account.
pub open spec fn encode_spec(account: AccountView) -> Seq<u8> {
    header() + enc_body(account)
}

/// The account that a document holds; `None` where the bytes are not a
/// whole document of the supported version with valid records, and nothing
/// behind it.
pub open spec fn decode_spec(bytes: Seq<u8>) -> Option<AccountView> {
    if bytes.len() < 5 || bytes.take(5) != header() {
        None
    } else {
        match dec_body(bytes.skip(5)) {
            Some((account, rest)) => if rest.len() == 0 {
                Some(account)
            } else {
                None
            },
            None => None,
        }
    }
}

pub proof fn lemma_dec_enc_u64(x: u64, tail: Seq<u8>)
    ensures
        dec_u64(enc_u64(x) + tail) == Some((x, tail)),
        enc_u64(x).len() == 8,
{
    lemma_auto_spec_u64_to_from_le_bytes();
    let s = enc_u64(x) + tail;
    assert(s.take(8) =~= enc_u64(x));
    assert(s.skip(8) =~= tail);
}

pub proof fn lemma_dec_enc_u8(b: u8, tail: Seq<u8>)
    ensures
        dec_u8(seq![b] + tail) == Some((b, tail)),
{
    assert((seq![b] + tail).skip(1) =~= tail);
}

pub proof fn lemma_dec_enc_text(t: Seq<char>, tail: Seq<u8>)
    requires
        text_fits(t),
    ensures
        dec_text(enc_text(t) + tail) == Some((t, tail)),
{
    let body = encode_utf8(t);
    let n = body.len() as u64;
    lemma_dec_enc_u64(n, body + tail);
    assert(enc_text(t) + tail =~= enc_u64(n) + (body + tail));
    assert((body + tail).take(n as int) =~= body);
    assert((body + tail).skip(n as int) =~= tail);
    encode_utf8_valid_utf8(t);
    encode_utf8_decode_utf8(t);
}

pub proof fn lemma_enc_list_push<T>(items: Seq<T>, item: T, enc: spec_fn(T) -> Seq<u8>)
    ensures
        enc_list(items.push(item), enc) == enc_list(items, enc) + enc(item),
{
    assert(items.push(item).drop_last() =~= items);
}

/// The first item of a list is written first.
pub proof fn lemma_enc_list_front<T>(items: Seq<T>, enc: spec_fn(T) -> Seq<u8>)
    requires
        items.len() > 0,
    ensures
        enc_list(items, enc) == enc(items[0]) + enc_list(items.drop_first(), enc),
    decreases items.len(),
{
    if items.len() == 1 {
        assert(items.drop_last() =~= Seq::empty());
        assert(items.drop_first() =~= Seq::empty());
        assert(enc_list(items, enc) =~= enc(items[0]) + enc_list(items.drop_first(), enc));
    } else {
        lemma_enc_list_front(items.drop_last(), enc);
        assert(items.drop_last().drop_first() =~= items.drop_first().drop_last());
        assert(enc_list(items, enc) =~= enc(items[0]) + enc_list(items.drop_first(), enc));
    }
}

/// Reading a list back: where each item is read back as it was written,
/// whatever follows it, so is the whole list.
pub proof fn lemma_dec_enc_list<T>(
    items: Seq<T>,
    tail: Seq<u8>,
    acc: Seq<T>,
    enc: spec_fn(T) -> Seq<u8>,
    dec: spec_fn(Seq<u8>) -> Option<(T, Seq<u8>)>,
)
    requires
        forall|i: int, rest: Seq<u8>|
            0 <= i < items.len() ==> #[trigger] dec(enc(items[i]) + rest) == Some(
                (items[i], rest),
            ),
    ensures
        dec_list(enc_list(items, enc) + tail, items.len(), acc, dec) == Some((acc + items, tail)),
    decreases items.len(),
{
    if items.len() == 0 {
        assert(enc_list(items, enc) + tail =~= tail);
        assert(acc + items =~= acc);
    } else {
        let rest = items.drop_first();
        lemma_enc_list_front(items, enc);
        let after = enc_list(rest, enc) + tail;
        assert(enc_list(items, enc) + tail =~= enc(items[0]) + after);
        assert(dec(enc(items[0]) + after) == Some((items[0], after)));
        assert forall|i: int, r: Seq<u8>| 0 <= i < rest.len() implies #[trigger] dec(
            enc(rest[i]) + r,
        ) == Some((rest[i], r)) by {
            assert(rest[i] == items[i + 1]);
            assert(dec(enc(items[i + 1]) + r) == Some((items[i + 1], r)));
        }
        lemma_dec_enc_list(rest, tail, acc.push(items[0]), enc, dec);
        assert(acc.push(items[0]) + rest =~= acc + items);
    }
}

pub proof fn lemma_dec_enc_kind(kind: Kind, tail: Seq<u8>)
    ensures
        dec_kind(enc_kind(kind) + tail) == Some((kind, tail)),
{
    lemma_dec_enc_u8(kind_code(kind), tail);
}

pub proof fn lemma_dec_enc_date(date: Date, tail: Seq<u8>)
    requires
        date.valid(),
    ensures
        dec_date(enc_date(date) + tail) == Some((date, tail)),
{
    let year = (date.year - MIN_YEAR) as u64;
    let rest = seq![date.month, date.day] + tail;
    lemma_dec_enc_u64(year, rest);
    assert(enc_date(date) + tail =~= enc_u64(year) + rest);
    assert(rest.skip(2) =~= tail);
    assert((year + MIN_YEAR) as i32 == date.year);
}

pub proof fn lemma_dec_enc_tags(tags: Seq<Seq<char>>, tail: Seq<u8>)
    requires
        tags.len() <= u64::MAX,
        forall|i: int| 0 <= i < tags.len() ==> text_fits(#[trigger] tags[i]),
    ensures
        dec_tags(enc_tags(tags) + tail) == Some((tags, tail)),
{
    let rest = enc_texts(tags) + tail;
    lemma_dec_enc_u64(tags.len() as u64, rest);
    assert(enc_tags(tags) + tail =~= enc_u64(tags.len() as u64) + rest);
    let enc = text_encoder();
    let dec = text_decoder();
    assert forall|i: int, rest: Seq<u8>| 0 <= i < tags.len() implies #[trigger] dec(
        enc(tags[i]) + rest,
    ) == Some((tags[i], rest)) by {
        lemma_dec_enc_text(tags[i], rest);
    }
    lemma_dec_enc_list(tags, tail, Seq::empty(), enc, dec);
    assert(Seq::<Seq<char>>::empty() + tags =~= tags);
}

pub proof fn lemma_dec_enc_record(t: TransactionView, tail: Seq<u8>)
    requires
        t.valid(),
        record_fits(t),
    ensures
        dec_record(enc_record(t) + tail) == Some((t, tail)),
{
    reveal(dec_record);
    let item = t.item;
    let s4 = enc_tags(item.tags) + tail;
    let s3 = enc_text(item.description) + s4;
    let s2 = enc_u64(item.amount as u64) + s3;
    let s1 = enc_date(item.date) + s2;
    assert(enc_record(t) + tail =~= enc_kind(t.kind) + s1);
    lemma_dec_enc_kind(t.kind, s1);
    lemma_dec_enc_date(item.date, s2);
    lemma_dec_enc_u64(item.amount as u64, s3);
    lemma_dec_enc_text(item.description, s4);
    lemma_dec_enc_tags(item.tags, tail);
}

pub proof fn lemma_dec_enc_records(records: Seq<TransactionView>, tail: Seq<u8>)
    requires
        forall|i: int|
            0 <= i < records.len() ==> (#[trigger] records[i]).valid() && record_fits(records[i]),
    ensures
        dec_records(enc_records(records) + tail, records.len(), Seq::empty()) == Some(
            (records, tail),
        ),
{
    let enc = record_encoder();
    let dec = record_decoder();
    assert forall|i: int, rest: Seq<u8>| 0 <= i < records.len() implies #[trigger] dec(
        enc(records[i]) + rest,
    ) == Some((records[i], rest)) by {
        lemma_dec_enc_record(records[i], rest);
    }
    lemma_dec_enc_list(records, tail, Seq::empty(), enc, dec);
    assert(Seq::<TransactionView>::empty() + records =~= records);
}

pub proof fn lemma_dec_enc_body(account: AccountView, tail: Seq<u8>)
    requires
        account.valid(),
        account_fits(account),
    ensures
        dec_body(enc_body(account) + tail) == Some((account, tail)),
{
    reveal(dec_body);
    let count = account.records.len() as u64;
    let s3 = enc_records(account.records) + tail;
    let s2 = enc_u64(count) + s3;
    let s1 = enc_text(account.currency) + s2;
    assert(enc_body(account) + tail =~= enc_text(account.name) + s1);
    lemma_dec_enc_text(account.name, s1);
    lemma_dec_enc_text(account.currency, s2);
    lemma_dec_enc_u64(count, s3);
    lemma_dec_enc_records(account.records, tail);
}

/// Round trip: a valid account that can be written is read back from its
/// persisted form exactly as it was, name, currency and every record.
pub proof fn lemma_decode_encode(account: AccountView)
    requires
        account.valid(),
        account_fits(account),
    ensures
        decode_spec(encode_spec(account)) == Some(account),
{
    let bytes = encode_spec(account);
    assert(bytes.take(5) =~= header());
    assert(bytes.skip(5) =~= enc_body(account) + Seq::<u8>::empty());
    lemma_dec_enc_body(account, Seq::empty());
}

/// Whether two records are the same transaction: the same kind, day,
/// amount and description, and the same set of tags.
pub open spec fn same_transaction(a: TransactionView, b: TransactionView) -> bool {
    &&& a.kind == b.kind
    &&& a.item.date == b.item.date
    &&& a.item.amount == b.item.amount
    &&& a.item.description == b.item.description
    &&& a.item.tags.to_set() == b.item.tags.to_set()
}

/// Two valid records that are the same transaction are equal: the order in
/// which the tags of a transaction were given is not part of it.
pub proof fn lemma_same_transaction(a: TransactionView, b: TransactionView)
    requires
        a.valid(),
        b.valid(),
        same_transaction(a, b),
    ensures
        a == b,
{
    lemma_ascending_unique(a.item.tags, b.item.tags);
}

/// One logical state has one persisted form: two valid accounts with the
/// same name and currency and, record by record, the same transactions,
/// have the same bytes.
pub proof fn lemma_encode_of_state(a: AccountView, b: AccountView)
    requires
        a.valid(),
        b.valid(),
        a.name == b.name,
        a.currency == b.currency,
        a.records.len() == b.records.len(),
        forall|i: int|
            0 <= i < a.records.len() ==> same_transaction(#[trigger] a.records[i], b.records[i]),
    ensures
        encode_spec(a) == encode_spec(b),
{
    assert forall|i: int| 0 <= i < a.records.len() implies a.records[i] == b.records[i] by {
        assert(same_transaction(a.records[i], b.records[i]));
        assert(a.records[i].valid());
        assert(b.records[i].valid());
        lemma_same_transaction(a.records[i], b.records[i]);
    }
    assert(a.records =~= b.records);
}

pub proof fn lemma_enc_dec_u64(s: Seq<u8>)
    requires
        dec_u64(s) is Some,
    ensures
        s == enc_u64(dec_u64(s).unwrap().0) + dec_u64(s).unwrap().1,
{
    lemma_auto_spec_u64_to_from_le_bytes();
    assert(spec_u64_to_le_bytes(spec_u64_from_le_bytes(s.take(8))) == s.take(8));
    assert(s =~= s.take(8) + s.skip(8));
}

pub proof fn lemma_enc_dec_text(s: Seq<u8>)
    requires
        dec_text(s) is Some,
    ensures
        s == enc_text(dec_text(s).unwrap().0) + dec_text(s).unwrap().1,
        text_fits(dec_text(s).unwrap().0),
{
    lemma_enc_dec_u64(s);
    let (n, rest) = dec_u64(s).unwrap();
    let body = rest.take(n as int);
    decode_utf8_encode_utf8(body);
    assert(rest =~= body + rest.skip(n as int));
    assert(s =~= enc_u64(n) + body + rest.skip(n as int));
}

/// Reading a list: where whatever `dec` reads is what `enc` wrote, and is
/// `good`, the items read are all `good` and the bytes read are what `enc`
/// writes for them.
pub proof fn lemma_enc_dec_list<T>(
    s: Seq<u8>,
    n: nat,
    acc: Seq<T>,
    enc: spec_fn(T) -> Seq<u8>,
    dec: spec_fn(Seq<u8>) -> Option<(T, Seq<u8>)>,
    good: spec_fn(T) -> bool,
)
    requires
        dec_list(s, n, acc, dec) is Some,
        forall|b: Seq<u8>| #[trigger]
            dec(b) is Some ==> b == enc(dec(b).unwrap().0) + dec(b).unwrap().1 && good(
                dec(b).unwrap().0,
            ),
    ensures
        ({
            let (out, rest) = dec_list(s, n, acc, dec).unwrap();
            &&& out.len() == acc.len() + n
            &&& out.take(acc.len() as int) == acc
            &&& enc_list(acc, enc) + s == enc_list(out, enc) + rest
            &&& forall|i: int| acc.len() <= i < out.len() ==> good(#[trigger] out[i])
        }),
    decreases n,
{
    if n == 0 {
        assert(acc.take(acc.len() as int) =~= acc);
    } else {
        let (item, after) = dec(s).unwrap();
        let next = acc.push(item);
        lemma_enc_dec_list(after, (n - 1) as nat, next, enc, dec, good);
        let (out, rest) = dec_list(s, n, acc, dec).unwrap();
        lemma_enc_list_push(acc, item, enc);
        assert(out.take(acc.len() as int) =~= out.take(next.len() as int).take(acc.len() as int));
        assert(next.take(acc.len() as int) =~= acc);
        assert(enc_list(acc, enc) + s =~= enc_list(next, enc) + after);
        assert forall|i: int| acc.len() <= i < out.len() implies good(#[trigger] out[i]) by {
            if i == acc.len() {
                assert(out.take(next.len() as int)[i] == next[i]);
            }
        }
    }
}

pub proof fn lemma_enc_dec_tags(s: Seq<u8>)
    requires
        dec_tags(s) is Some,
    ensures
        ({
            let (tags, rest) = dec_tags(s).unwrap();
            &&& s == enc_tags(tags) + rest
            &&& tags.len() <= u64::MAX
            &&& forall|i: int| 0 <= i < tags.len() ==> text_fits(#[trigger] tags[i])
        }),
{
    lemma_enc_dec_u64(s);
    let (count, after) = dec_u64(s).unwrap();
    let enc = text_encoder();
    let dec = text_decoder();
    let good = |t: Seq<char>| text_fits(t);
    assert forall|b: Seq<u8>| #[trigger] dec(b) is Some implies b == enc(dec(b).unwrap().0) + dec(
        b,
    ).unwrap().1 && good(dec(b).unwrap().0) by {
        lemma_enc_dec_text(b);
    }
    lemma_enc_dec_list(after, count as nat, Seq::empty(), enc, dec, good);
    let (tags, rest) = dec_tags(s).unwrap();
    assert(enc_list(Seq::<Seq<char>>::empty(), enc) + after =~= after);
    assert(s =~= enc_u64(count) + enc_texts(tags) + rest);
    assert forall|i: int| 0 <= i < tags.len() implies text_fits(#[trigger] tags[i]) by {
        assert(good(tags[i]));
    }
}

pub proof fn lemma_enc_dec_date(s: Seq<u8>)
    requires
        dec_date(s) is Some,
    ensures
        s == enc_date(dec_date(s).unwrap().0) + dec_date(s).unwrap().1,
{
    lemma_enc_dec_u64(s);
    let (year, rest) = dec_u64(s).unwrap();
    let date = dec_date(s).unwrap().0;
    assert((date.year - MIN_YEAR) as u64 == year);
    assert(rest =~= seq![rest[0], rest[1]] + rest.skip(2));
    assert(s =~= enc_u64(year) + seq![rest[0], rest[1]] + rest.skip(2));
}

pub proof fn lemma_enc_dec_record(s: Seq<u8>)
    requires
        dec_record(s) is Some,
    ensures
        ({
            let (t, rest) = dec_record(s).unwrap();
            &&& s == enc_record(t) + rest
            &&& t.valid()
            &&& record_fits(t)
        }),
{
    reveal(dec_record);
    let (kind, s1) = dec_kind(s).unwrap();
    let (date, s2) = dec_date(s1).unwrap();
    let (amount, s3) = dec_u64(s2).unwrap();
    let (description, s4) = dec_text(s3).unwrap();
    let (tags, s5) = dec_tags(s4).unwrap();
    assert(s =~= enc_kind(kind) + s1);
    lemma_enc_dec_date(s1);
    lemma_enc_dec_u64(s2);
    lemma_enc_dec_text(s3);
    lemma_enc_dec_tags(s4);
    let t = dec_record(s).unwrap().0;
    assert(t.item.amount as u64 == amount);
    assert(s =~= enc_kind(kind) + enc_date(date) + enc_u64(amount) + enc_text(description)
        + enc_tags(tags) + s5);
}

pub proof fn lemma_enc_dec_records(s: Seq<u8>, n: nat)
    requires
        dec_records(s, n, Seq::empty()) is Some,
    ensures
        ({
            let (records, rest) = dec_records(s, n, Seq::empty()).unwrap();
            &&& s == enc_records(records) + rest
            &&& records.len() == n
            &&& forall|i: int|
                0 <= i < records.len() ==> (#[trigger] records[i]).valid() && record_fits(
                    records[i],
                )
        }),
{
    let enc = record_encoder();
    let dec = record_decoder();
    let good = |t: TransactionView| t.valid() && record_fits(t);
    assert forall|b: Seq<u8>| #[trigger] dec(b) is Some implies b == enc(dec(b).unwrap().0) + dec(
        b,
    ).unwrap().1 && good(dec(b).unwrap().0) by {
        lemma_enc_dec_record(b);
    }
    lemma_enc_dec_list(s, n, Seq::empty(), enc, dec, good);
    let (records, rest) = dec_records(s, n, Seq::empty()).unwrap();
    assert(enc_list(Seq::<TransactionView>::empty(), enc) + s =~= s);
    assert forall|i: int| 0 <= i < records.len() implies (#[trigger] records[i]).valid()
        && record_fits(records[i]) by {
        assert(good(records[i]));
    }
}

pub proof fn lemma_enc_dec_body(s: Seq<u8>)
    requires
        dec_body(s) is Some,
    ensures
        ({
            let (account, rest) = dec_body(s).unwrap();
            &&& s == enc_body(account) + rest
            &&& account.valid()
            &&& account_fits(account)
        }),
{
    reveal(dec_body);
    let (name, s1) = dec_text(s).unwrap();
    let (currency, s2) = dec_text(s1).unwrap();
    let (count, s3) = dec_u64(s2).unwrap();
    let (records, rest) = dec_records(s3, count as nat, Seq::empty()).unwrap();
    lemma_enc_dec_text(s);
    lemma_enc_dec_text(s1);
    lemma_enc_dec_u64(s2);
    lemma_enc_dec_records(s3, count as nat);
    assert(s =~= enc_text(name) + enc_text(currency) + enc_u64(count) + enc_records(records)
        + rest);
}

/// Whatever is read as an account is a valid account, and the bytes it was
/// read from are exactly its persisted form.
pub proof fn lemma_encode_decode(bytes: Seq<u8>)
    requires
        decode_spec(bytes) is Some,
    ensures
        decode_spec(bytes).unwrap().valid(),
        account_fits(decode_spec(bytes).unwrap()),
        encode_spec(decode_spec(bytes).unwrap()) == bytes,
{
    let s = bytes.skip(5);
    lemma_enc_dec_body(s);
    let (account, rest) = dec_body(s).unwrap();
    assert(bytes =~= header() + s);
    assert(enc_body(account) + rest =~= enc_body(account));
}

/// A document that was cut short is not read: no beginning of the persisted
/// form of an account is itself a document.
pub proof fn lemma_truncated_is_refused(account: AccountView, cut: int)
    requires
        account.valid(),
        account_fits(account),
        0 <= cut < encode_spec(account).len(),
    ensures
        decode_spec(encode_spec(account).take(cut)) is None,
{
    let whole = encode_spec(account);
    let front = whole.take(cut);
    if decode_spec(front) is Some {
        let other = decode_spec(front).unwrap();
        lemma_encode_decode(front);
        let tail = whole.skip(cut);
        assert(whole =~= front + tail);
        assert(whole.skip(5) =~= enc_body(other) + tail);
        assert(whole.skip(5) =~= enc_body(account) + Seq::<u8>::empty());
        lemma_dec_enc_body(other, tail);
        lemma_dec_enc_body(account, Seq::empty());
    }
}

/// A document with anything behind its last record is not read.
pub proof fn lemma_extended_is_refused(account: AccountView, more: Seq<u8>)
    requires
        account.valid(),
        account_fits(account),
        more.len() > 0,
    ensures
        decode_spec(encode_spec(account) + more) is None,
{
    let bytes = encode_spec(account) + more;
    assert(bytes.skip(5) =~= enc_body(account) + more);
    lemma_dec_enc_body(account, more);
}

/// Different valid accounts have different persisted forms.
pub proof fn lemma_encode_injective(a: AccountView, b: AccountView)
    requires
        a.valid(),
        b.valid(),
        account_fits(a),
        account_fits(b),
        encode_spec(a) == encode_spec(b),
    ensures
        a == b,
{
    lemma_decode_encode(a);
    lemma_decode_encode(b);
}

} // verus!
