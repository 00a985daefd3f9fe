//! Writing an account to bytes and reading it back.

use crate::account::{Account, AccountView};
use crate::date::{Date, MIN_YEAR};
use crate::error::Error;
use crate::format::{
    account_fits, dec_body, dec_date, dec_record, dec_records, dec_tags, dec_text, dec_texts, dec_u64,
    dec_u8, decode_spec, enc_record, enc_records, enc_tags, enc_text, enc_texts, enc_u64,
    encode_spec, header, lemma_decode_encode, lemma_enc_list_push, lemma_encode_decode,
    record_decoder, record_encoder, record_fits, text_decoder, text_encoder, text_fits,
};
use crate::text::texts;
use crate::transaction::{views, Item, Kind, Transaction};
use vstd::bytes::*;
use vstd::prelude::*;
use vstd::slice::*;
use vstd::string::*;
use vstd::utf8::*;

verus! {

/// Calls `String::from_utf8`: the string that the bytes spell in UTF-8, or
/// `None` where they are not UTF-8.
#[verifier::external_body]
fn text_from_utf8(bytes: Vec<u8>) -> (text: Option<String>)
    ensures
        match text {
            Some(s) => valid_utf8(bytes@) && s@ == decode_utf8(bytes@),
            None => !valid_utf8(bytes@),
        },
{
    String::from_utf8(bytes).ok()
}

fn put_u64(out: &mut Vec<u8>, x: u64)
    ensures
        final(out)@ == old(out)@ + enc_u64(x),
{
    let mut number = u64_to_le_bytes(x);
    out.append(&mut number);
}

fn put_text(out: &mut Vec<u8>, text: &str)
    ensures
        final(out)@ == old(out)@ + enc_text(text@),
        text_fits(text@),
{
    let bytes = text.as_bytes();
    put_u64(out, bytes.len() as u64);
    let mut body = slice_to_vec(bytes);
    out.append(&mut body);
    assert(out@ =~= old(out)@ + enc_text(text@));
}

fn put_tags(out: &mut Vec<u8>, tags: &Vec<String>)
    ensures
        final(out)@ == old(out)@ + enc_tags(texts(tags@)),
        texts(tags@).len() <= u64::MAX,
        forall|i: int| 0 <= i < tags@.len() ==> text_fits(#[trigger] texts(tags@)[i]),
{
    put_u64(out, tags.len() as u64);
    let ghost start = out@;
    let mut i: usize = 0;
    assert(texts(tags@).take(0) =~= Seq::empty());
    assert(out@ =~= start + enc_texts(Seq::empty()));
    while i < tags.len()
        invariant
            0 <= i <= tags@.len(),
            out@ == start + enc_texts(texts(tags@).take(i as int)),
            forall|k: int| 0 <= k < i ==> text_fits(#[trigger] texts(tags@)[k]),
        decreases tags@.len() - i,
    {
        let ghost before = out@;
        put_text(out, tags[i].as_str());
        proof {
            let seen = texts(tags@).take(i as int);
            assert(texts(tags@).take(i + 1) =~= seen.push(tags@[i as int]@));
            lemma_enc_list_push(seen, tags@[i as int]@, text_encoder());
            assert(out@ =~= start + enc_texts(texts(tags@).take(i + 1)));
        }
        i += 1;
    }
    assert(texts(tags@).take(i as int) =~= texts(tags@));
    assert(out@ =~= old(out)@ + enc_tags(texts(tags@)));
}

fn put_record(out: &mut Vec<u8>, t: &Transaction)
    requires
        t@.valid(),
    ensures
        final(out)@ == old(out)@ + enc_record(t@),
        record_fits(t@),
{
    let code: u8 = match t.kind() {
        Kind::Income => 0,
        Kind::Spending => 1,
    };
    let item = t.item();
    out.push(code);
    put_u64(out, (item.date.year - MIN_YEAR) as u64);
    out.push(item.date.month);
    out.push(item.date.day);
    put_u64(out, item.amount as u64);
    put_text(out, item.description.as_str());
    put_tags(out, &item.tags);
    assert(out@ =~= old(out)@ + enc_record(t@));
}

/// The persisted form of `account`. It is a function of the account's
/// content alone, and reading it gives the account back.
pub fn encode(account: &Account) -> (bytes: Vec<u8>)
    ensures
        bytes@ == encode_spec(account@),
        decode_spec(bytes@) == Some(account@),
{
    let mut out: Vec<u8> = Vec::new();
    out.push(0x4c);
    out.push(0x44);
    out.push(0x47);
    out.push(0x52);
    out.push(1);
    assert(out@ =~= header());
    put_text(&mut out, account.name());
    put_text(&mut out, account.currency());
    let list = account.records();
    put_u64(&mut out, list.len() as u64);
    let ghost start = out@;
    let mut i: usize = 0;
    assert(views(list@).take(0) =~= Seq::empty());
    assert(out@ =~= start + enc_records(Seq::empty()));
    while i < list.len()
        invariant
            0 <= i <= list@.len(),
            views(list@) == account@.records,
            account@.valid(),
            out@ == start + enc_records(views(list@).take(i as int)),
            forall|k: int| 0 <= k < i ==> record_fits(#[trigger] views(list@)[k]),
        decreases list@.len() - i,
    {
        assert(account@.records[i as int].valid());
        put_record(&mut out, &list[i]);
        proof {
            let seen = views(list@).take(i as int);
            assert(views(list@).take(i + 1) =~= seen.push(list@[i as int]@));
            lemma_enc_list_push(seen, list@[i as int]@, record_encoder());
            assert(out@ =~= start + enc_records(views(list@).take(i + 1)));
        }
        i += 1;
    }
    proof {
        assert(views(list@).take(i as int) =~= views(list@));
        assert(out@ =~= encode_spec(account@));
        lemma_decode_encode(account@);
    }
    out
}

/// What reading at position `at` of `bytes` came to, against what the
/// format says is read from the bytes that start there.
pub open spec fn read_as<T, V>(
    read: Option<(T, usize)>,
    expected: Option<(V, Seq<u8>)>,
    bytes: Seq<u8>,
    at: usize,
    view: spec_fn(T) -> V,
) -> bool {
    match read {
        Some((value, next)) => at <= next <= bytes.len() && expected == Some(
            (view(value), bytes.skip(next as int)),
        ),
        None => expected is None,
    }
}

fn get_u64(bytes: &[u8], at: usize) -> (read: Option<(u64, usize)>)
    requires
        at <= bytes@.len(),
    ensures
        read_as(read, dec_u64(bytes@.skip(at as int)), bytes@, at, |x: u64| x),
{
    if bytes.len() - at < 8 {
        return None;
    }
    let x = u64_from_le_bytes(slice_subrange(bytes, at, at + 8));
    proof {
        assert(bytes@.skip(at as int).take(8) =~= bytes@.subrange(at as int, at + 8));
        assert(bytes@.skip(at as int).skip(8) =~= bytes@.skip(at + 8));
    }
    Some((x, at + 8))
}

fn get_u8(bytes: &[u8], at: usize) -> (read: Option<(u8, usize)>)
    requires
        at <= bytes@.len(),
    ensures
        read_as(read, dec_u8(bytes@.skip(at as int)), bytes@, at, |x: u8| x),
{
    if bytes.len() - at < 1 {
        return None;
    }
    proof {
        assert(bytes@.skip(at as int).skip(1) =~= bytes@.skip(at + 1));
    }
    Some((bytes[at], at + 1))
}

fn get_text(bytes: &[u8], at: usize) -> (read: Option<(String, usize)>)
    requires
        at <= bytes@.len(),
    ensures
        read_as(read, dec_text(bytes@.skip(at as int)), bytes@, at, |s: String| s@),
{
    let (n, start) = match get_u64(bytes, at) {
        Some(found) => found,
        None => {
            return None;
        },
    };
    if n > (bytes.len() - start) as u64 {
        return None;
    }
    let end = start + n as usize;
    let body = slice_to_vec(slice_subrange(bytes, start, end));
    proof {
        assert(bytes@.skip(start as int).take(n as int) =~= bytes@.subrange(
            start as int,
            end as int,
        ));
        assert(bytes@.skip(start as int).skip(n as int) =~= bytes@.skip(end as int));
    }
    match text_from_utf8(body) {
        Some(text) => Some((text, end)),
        None => None,
    }
}

#[verifier::loop_isolation(false)]
fn get_tags(bytes: &[u8], at: usize) -> (read: Option<(Vec<String>, usize)>)
    requires
        at <= bytes@.len(),
    ensures
        read_as(read, dec_tags(bytes@.skip(at as int)), bytes@, at, |v: Vec<String>| texts(v@)),
{
    let (count, start) = match get_u64(bytes, at) {
        Some(found) => found,
        None => {
            return None;
        },
    };
    let mut tags: Vec<String> = Vec::new();
    let mut next = start;
    let mut i: u64 = 0;
    assert(texts(tags@) =~= Seq::empty());
    while i < count
        invariant
            0 <= i <= count,
            start <= next <= bytes@.len(),
            dec_texts(bytes@.skip(start as int), count as nat, Seq::empty()) == dec_texts(
                bytes@.skip(next as int),
                (count - i) as nat,
                texts(tags@),
            ),
        decreases count - i,
    {
        match get_text(bytes, next) {
            Some((tag, after)) => {
                proof {
                    assert(texts(tags@.push(tag)) =~= texts(tags@).push(tag@));
                }
                tags.push(tag);
                next = after;
            },
            None => {
                assert(text_decoder()(bytes@.skip(next as int)) is None);
                assert(dec_texts(bytes@.skip(next as int), (count - i) as nat, texts(tags@))
                    is None);
                return None;
            },
        }
        i += 1;
    }
    Some((tags, next))
}

fn get_date(bytes: &[u8], at: usize) -> (read: Option<(Date, usize)>)
    requires
        at <= bytes@.len(),
    ensures
        read_as(read, dec_date(bytes@.skip(at as int)), bytes@, at, |d: Date| d),
{
    let (year, start) = match get_u64(bytes, at) {
        Some(found) => found,
        None => {
            return None;
        },
    };
    if year > 19998 || bytes.len() - start < 2 {
        return None;
    }
    proof {
        assert(bytes@.skip(start as int).skip(2) =~= bytes@.skip(start + 2));
    }
    let date = Date { year: (year as i32) + MIN_YEAR, month: bytes[start], day: bytes[start + 1] };
    Some((date, start + 2))
}

fn get_record(bytes: &[u8], at: usize) -> (read: Option<(Transaction, usize)>)
    requires
        at <= bytes@.len(),
    ensures
        read_as(read, dec_record(bytes@.skip(at as int)), bytes@, at, |t: Transaction| t@),
        read matches Some((t, _)) ==> t@.valid(),
{
    proof {
        reveal(dec_record);
    }
    let (code, s1) = match get_u8(bytes, at) {
        Some(found) => found,
        None => {
            return None;
        },
    };
    if code > 1 {
        return None;
    }
    let (date, s2) = match get_date(bytes, s1) {
        Some(found) => found,
        None => {
            return None;
        },
    };
    let (amount, s3) = match get_u64(bytes, s2) {
        Some(found) => found,
        None => {
            return None;
        },
    };
    let (description, s4) = match get_text(bytes, s3) {
        Some(found) => found,
        None => {
            return None;
        },
    };
    let (tags, s5) = match get_tags(bytes, s4) {
        Some(found) => found,
        None => {
            return None;
        },
    };
    if amount > i64::MAX as u64 {
        return None;
    }
    let item = Item { date, amount: amount as i64, description, tags };
    let t = if code == 0 {
        Transaction::Income(item)
    } else {
        Transaction::Spending(item)
    };
    if t.is_valid() {
        Some((t, s5))
    } else {
        None
    }
}

#[verifier::loop_isolation(false)]
fn get_records(bytes: &[u8], at: usize, count: u64) -> (read: Option<(Vec<Transaction>, usize)>)
    requires
        at <= bytes@.len(),
    ensures
        read_as(
            read,
            dec_records(bytes@.skip(at as int), count as nat, Seq::empty()),
            bytes@,
            at,
            |v: Vec<Transaction>| views(v@),
        ),
        read matches Some((list, _)) ==> forall|k: int|
            0 <= k < list@.len() ==> (#[trigger] list@[k])@.valid(),
{
    let mut records: Vec<Transaction> = Vec::new();
    let mut next = at;
    let mut i: u64 = 0;
    assert(views(records@) =~= Seq::empty());
    while i < count
        invariant
            0 <= i <= count,
            at <= next <= bytes@.len(),
            forall|k: int| 0 <= k < records@.len() ==> (#[trigger] records@[k])@.valid(),
            dec_records(bytes@.skip(at as int), count as nat, Seq::empty()) == dec_records(
                bytes@.skip(next as int),
                (count - i) as nat,
                views(records@),
            ),
        decreases count - i,
    {
        match get_record(bytes, next) {
            Some((t, after)) => {
                proof {
                    assert(views(records@.push(t)) =~= views(records@).push(t@));
                }
                records.push(t);
                next = after;
            },
            None => {
                assert(record_decoder()(bytes@.skip(next as int)) is None);
                assert(dec_records(bytes@.skip(next as int), (count - i) as nat, views(records@))
                    is None);
                return None;
            },
        }
        i += 1;
    }
    Some((records, next))
}

/// Whether `bytes` starts with the header of the supported version.
fn has_header(bytes: &[u8]) -> (found: bool)
    ensures
        found == (bytes@.len() >= 5 && bytes@.take(5) == header()),
{
    if bytes.len() < 5 {
        return false;
    }
    if bytes[0] != 0x4c || bytes[1] != 0x44 || bytes[2] != 0x47 || bytes[3] != 0x52 || bytes[4]
        != 1 {
        assert(bytes@.take(5) != header()) by {
            if bytes@.take(5) == header() {
                assert(bytes@.take(5)[0] == header()[0]);
                assert(bytes@.take(5)[1] == header()[1]);
                assert(bytes@.take(5)[2] == header()[2]);
                assert(bytes@.take(5)[3] == header()[3]);
                assert(bytes@.take(5)[4] == header()[4]);
            }
        }
        return false;
    }
    assert(bytes@.take(5) =~= header());
    true
}

fn read_document(bytes: &[u8]) -> (read: Option<Account>)
    ensures
        match read {
            Some(account) => decode_spec(bytes@) == Some(account@),
            None => decode_spec(bytes@) is None,
        },
{
    proof {
        reveal(dec_body);
    }
    if !has_header(bytes) {
        return None;
    }
    let (name, s1) = match get_text(bytes, 5) {
        Some(found) => found,
        None => {
            return None;
        },
    };
    let (currency, s2) = match get_text(bytes, s1) {
        Some(found) => found,
        None => {
            return None;
        },
    };
    let (count, s3) = match get_u64(bytes, s2) {
        Some(found) => found,
        None => {
            return None;
        },
    };
    let (records, s4) = match get_records(bytes, s3, count) {
        Some(found) => found,
        None => {
            return None;
        },
    };
    if s4 != bytes.len() {
        return None;
    }
    Some(Account::from_valid_records(name, currency, records))
}

/// Reads an account from its persisted form. The bytes are accepted
/// exactly where they are the persisted form of a valid account, whole and
/// with nothing behind it; everything else is `Corrupt`.
pub fn decode(bytes: &[u8]) -> (read: Result<Account, Error>)
    ensures
        match read {
            Ok(account) => decode_spec(bytes@) == Some(account@) && encode_spec(account@)
                == bytes@,
            Err(e) => e == Error::Corrupt && decode_spec(bytes@) is None && forall|
                a: AccountView,
            |
                a.valid() && account_fits(a) ==> #[trigger] encode_spec(a) != bytes@,
        },
{
    match read_document(bytes) {
        Some(account) => {
            proof {
                lemma_encode_decode(bytes@);
            }
            Ok(account)
        },
        None => {
            proof {
                assert forall|a: AccountView| a.valid() && account_fits(a) implies #[trigger] encode_spec(
                    a,
                ) != bytes@ by {
                    lemma_decode_encode(a);
                }
            }
            Err(Error::Corrupt)
        },
    }
}

} // verus!
