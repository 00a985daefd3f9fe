//! Persisted state: what loading, creating and appending come to, given
//! the document that the storage holds, and a store of documents in memory
//! that is keyed by account name.

use crate::account::{update_transaction, Account, AccountView};
use crate::codec::{decode, encode};
use crate::error::Error;
use crate::format::{
    account_fits, decode_spec, encode_spec, lemma_decode_encode, lemma_encode_decode,
    lemma_same_transaction, record_fits, same_transaction,
};
use crate::text::same_text;
use crate::transaction::{Transaction, TransactionView};
use vstd::prelude::*;
use vstd::slice::*;
use vstd::string::*;

verus! {

/// The bytes of a document that may be absent.
pub open spec fn bytes_of(document: Option<&[u8]>) -> Option<Seq<u8>> {
    match document {
        Some(bytes) => Some(bytes@),
        None => None,
    }
}

/// What loading comes to: `NotFound` where the storage holds no document,
/// `Corrupt` where the document does not decode, else the account.
pub open spec fn load_result(document: Option<Seq<u8>>) -> Result<AccountView, Error> {
    match document {
        None => Err(Error::NotFound),
        Some(bytes) => match decode_spec(bytes) {
            Some(account) => Ok(account),
            None => Err(Error::Corrupt),
        },
    }
}

/// What creating comes to: `AlreadyExists` where the storage holds a
/// document under the name, else the empty account.
pub open spec fn create_result(exists: bool, name: Seq<char>, currency: Seq<char>) -> Result<
    AccountView,
    Error,
> {
    if exists {
        Err(Error::AlreadyExists)
    } else {
        Ok(AccountView::empty(name, currency))
    }
}

/// What one cycle of loading, appending `t` and encoding comes to: the new
/// document, or the error that stopped the cycle.
pub open spec fn append_result(document: Option<Seq<u8>>, t: TransactionView) -> Result<
    Seq<u8>,
    Error,
> {
    match load_result(document) {
        Err(e) => Err(e),
        Ok(account) => if t.valid() {
            Ok(encode_spec(account.append(t)))
        } else {
            Err(Error::InvalidInput)
        },
    }
}

/// What one cycle of loading, replacing the record at `index` by `t` and
/// encoding comes to: the new document, or the error that stopped the cycle.
pub open spec fn update_result(document: Option<Seq<u8>>, index: int, t: TransactionView) -> Result<
    Seq<u8>,
    Error,
> {
    match load_result(document) {
        Err(e) => Err(e),
        Ok(account) => if 0 <= index < account.records.len() && t.valid() {
            Ok(encode_spec(account.replace(index, t)))
        } else {
            Err(Error::InvalidInput)
        },
    }
}

/// Whether what a function returned is the account that was expected.
pub open spec fn is_account(made: Result<Account, Error>, expected: Result<AccountView, Error>) -> bool {
    match expected {
        Ok(view) => made matches Ok(account) && account@ == view,
        Err(e) => made matches Err(x) && x == e,
    }
}

/// Loads the account from the document that the storage holds under its
/// name; `None` stands for a name without a document.
pub fn load(document: Option<&[u8]>) -> (loaded: Result<Account, Error>)
    ensures
        is_account(loaded, load_result(bytes_of(document))),
{
    match document {
        None => Err(Error::NotFound),
        Some(bytes) => decode(bytes),
    }
}

/// Creates an account. `exists` says whether the storage already holds a
/// document under the name; where it does, nothing is made.
pub fn create(exists: bool, name: &str, currency: &str) -> (created: Result<Account, Error>)
    ensures
        is_account(created, create_result(exists, name@, currency@)),
{
    if exists {
        Err(Error::AlreadyExists)
    } else {
        Ok(Account::new(name, currency))
    }
}

/// One cycle of load, append and encode: the document that is to replace
/// `document` once `t` is appended to the account in it. On any error there
/// is no new document, so the storage is left as it is.
pub fn write_transaction(document: Option<&[u8]>, t: Transaction) -> (written: Result<
    Vec<u8>,
    Error,
>)
    ensures
        match append_result(bytes_of(document), t@) {
            Ok(bytes) => written matches Ok(new) && new@ == bytes,
            Err(e) => written matches Err(x) && x == e,
        },
{
    let mut account = match load(document) {
        Ok(account) => account,
        Err(e) => {
            return Err(e);
        },
    };
    match account.push_transaction(t) {
        Ok(()) => Ok(encode(&account)),
        Err(e) => Err(e),
    }
}

/// One cycle of load, replace and encode: the document that is to replace
/// `document` once the record at `index` is replaced by `t`. The whole
/// account is encoded anew; the old bytes are never patched. On any error
/// there is no new document.
pub fn update_document(document: Option<&[u8]>, index: usize, t: Transaction) -> (written: Result<
    Vec<u8>,
    Error,
>)
    ensures
        match update_result(bytes_of(document), index as int, t@) {
            Ok(bytes) => written matches Ok(new) && new@ == bytes,
            Err(e) => written matches Err(x) && x == e,
        },
{
    let mut account = match load(document) {
        Ok(account) => account,
        Err(e) => {
            return Err(e);
        },
    };
    match update_transaction(&mut account, index, t) {
        Ok(()) => Ok(encode(&account)),
        Err(e) => Err(e),
    }
}

/// An account that was encoded is loaded as it was.
pub proof fn lemma_load_encoded(account: AccountView)
    requires
        account.valid(),
        account_fits(account),
    ensures
        load_result(Some(encode_spec(account))) == Ok::<AccountView, Error>(account),
{
    lemma_decode_encode(account);
}

/// Two cycles of load, append and encode, one after the other on the same
/// account, both succeed, and the account loaded afterwards holds the
/// records it had and both new ones, in the order of the cycles.
pub proof fn lemma_sequential_appends(
    document: Seq<u8>,
    first: TransactionView,
    second: TransactionView,
)
    requires
        load_result(Some(document)) is Ok,
        first.valid() && record_fits(first),
        second.valid() && record_fits(second),
        load_result(Some(document))->Ok_0.records.len() + 2 <= u64::MAX,
    ensures
        ({
            let before = load_result(Some(document))->Ok_0;
            let after_first = append_result(Some(document), first);
            let after_second = append_result(Some(after_first->Ok_0), second);
            &&& after_first is Ok
            &&& after_second is Ok
            &&& load_result(Some(after_second->Ok_0)) == Ok::<AccountView, Error>(
                before.append(first).append(second),
            )
        }),
{
    let before = load_result(Some(document))->Ok_0;
    lemma_encode_decode(document);
    let one = before.append(first);
    assert(one.valid() && account_fits(one)) by {
        assert forall|i: int| 0 <= i < one.records.len() implies (#[trigger] one.records[i]).valid()
            && record_fits(one.records[i]) by {
            if i < before.records.len() {
                assert(one.records[i] == before.records[i]);
            }
        }
    }
    lemma_decode_encode(one);
    let two = one.append(second);
    assert(two.valid() && account_fits(two)) by {
        assert forall|i: int| 0 <= i < two.records.len() implies (#[trigger] two.records[i]).valid()
            && record_fits(two.records[i]) by {
            if i < one.records.len() {
                assert(two.records[i] == one.records[i]);
            }
        }
    }
    lemma_decode_encode(two);
}

/// One document of a store, under the name of its account.
#[derive(Debug)]
struct Entry {
    name: String,
    document: Vec<u8>,
}

/// A store of documents in memory, keyed by account name: the persisted
/// state of all accounts. No name occurs twice in it.
#[derive(Debug)]
pub struct Record {
    entries: Vec<Entry>,
}

/// What the store holds under `name`, if anything.
pub open spec fn document_of(store: Map<Seq<char>, Seq<u8>>, name: Seq<char>) -> Option<Seq<u8>> {
    if store.contains_key(name) {
        Some(store[name])
    } else {
        None
    }
}

impl View for Record {
    type V = Map<Seq<char>, Seq<u8>>;

    closed spec fn view(&self) -> Map<Seq<char>, Seq<u8>> {
        Map::new(
            |name: Seq<char>| self.holds(name),
            |name: Seq<char>| self.entries@[self.place(name)].document@,
        )
    }
}

impl Record {
    #[verifier::type_invariant]
    spec fn names_unique(self) -> bool {
        forall|i: int, j: int|
            0 <= i < self.entries@.len() && 0 <= j < self.entries@.len() && i != j ==> (
            #[trigger] self.entries@[i]).name@ != (#[trigger] self.entries@[j]).name@
    }

    spec fn holds(self, name: Seq<char>) -> bool {
        exists|i: int| 0 <= i < self.entries@.len() && (#[trigger] self.entries@[i]).name@ == name
    }

    spec fn place(self, name: Seq<char>) -> int {
        choose|i: int| 0 <= i < self.entries@.len() && (#[trigger] self.entries@[i]).name@ == name
    }

    /// A store without documents.
    pub fn new() -> (record: Record)
        ensures
            record@ == Map::<Seq<char>, Seq<u8>>::empty(),
    {
        let record = Record { entries: Vec::new() };
        assert(record@ =~= Map::<Seq<char>, Seq<u8>>::empty());
        record
    }

    fn find(&self, name: &str) -> (found: Option<usize>)
        ensures
            match found {
                Some(i) => i < self.entries@.len() && self.entries@[i as int].name@ == name@
                    && self.place(name@) == i && self.holds(name@),
                None => !self.holds(name@),
            },
    {
        let mut i: usize = 0;
        while i < self.entries.len()
            invariant
                0 <= i <= self.entries@.len(),
                forall|k: int| 0 <= k < i ==> (#[trigger] self.entries@[k]).name@ != name@,
            decreases self.entries@.len() - i,
        {
            if same_text(self.entries[i].name.as_str(), name) {
                proof {
                    use_type_invariant(self);
                    assert(self.entries@[i as int].name@ == name@);
                }
                return Some(i);
            }
            i += 1;
        }
        None
    }

    /// Whether the store holds a document under `name`.
    pub fn contains(&self, name: &str) -> (held: bool)
        ensures
            held == self@.contains_key(name@),
    {
        self.find(name).is_some()
    }

    /// The document held under `name`, if any.
    pub fn read(&self, name: &str) -> (document: Option<&[u8]>)
        ensures
            bytes_of(document) == document_of(self@, name@),
    {
        match self.find(name) {
            Some(i) => Some(self.entries[i].document.as_slice()),
            None => None,
        }
    }

    /// Puts `document` under `name`, in the place of what was there.
    pub fn write(&mut self, name: &str, document: Vec<u8>)
        ensures
            final(self)@ == old(self)@.insert(name@, document@),
    {
        proof {
            use_type_invariant(&*self);
        }
        let found = self.find(name);
        let mut entries: Vec<Entry> = Vec::new();
        std::mem::swap(&mut entries, &mut self.entries);
        let ghost before = entries@;
        let entry = Entry { name: String::from_str(name), document };
        match found {
            Some(i) => {
                entries.set(i, entry);
            },
            None => {
                entries.push(entry);
            },
        }
        assert forall|i: int, j: int|
            0 <= i < entries@.len() && 0 <= j < entries@.len() && i != j implies (
        #[trigger] entries@[i]).name@ != (#[trigger] entries@[j]).name@ by {
            if i < before.len() && j < before.len() {
                assert(before[i].name@ != before[j].name@);
            }
        }
        self.entries = entries;
        proof {
            let old_store = old(self);
            let new_store = *self;
            assert forall|key: Seq<char>| new_store.holds(key) <==> (key == name@ || old_store.holds(
                key,
            )) by {
                if new_store.holds(key) {
                    let k = new_store.place(key);
                    if key != name@ {
                        assert(before[k].name@ == key);
                    }
                }
                if key == name@ {
                    match found {
                        Some(i) => {
                            assert(entries@[i as int].name@ == name@);
                        },
                        None => {
                            assert(entries@[before.len() as int].name@ == name@);
                        },
                    }
                } else if old_store.holds(key) {
                    let k = old_store.place(key);
                    assert(entries@[k].name@ == key);
                }
            }
            assert forall|key: Seq<char>| new_store.holds(key) implies #[trigger] new_store@[key]
                == old_store@.insert(name@, document@)[key] by {
                let k = new_store.place(key);
                if key == name@ {
                    match found {
                        Some(i) => {
                            assert(entries@[i as int].name@ == name@);
                            assert(k == i);
                        },
                        None => {
                            assert(entries@[before.len() as int].name@ == name@);
                            assert(k == before.len());
                        },
                    }
                } else {
                    assert(before[k].name@ == key);
                    assert(old_store.holds(key));
                    assert(old_store.place(key) == k);
                }
            }
            assert(new_store@ =~= old_store@.insert(name@, document@));
        }
    }

    /// Creates the account `name` and persists it at once. Where the store
    /// holds a document under the name, nothing changes.
    pub fn create(&mut self, name: &str, currency: &str) -> (created: Result<Account, Error>)
        ensures
            is_account(created, create_result(old(self)@.contains_key(name@), name@, currency@)),
            old(self)@.contains_key(name@) ==> final(self)@ == old(self)@,
            !old(self)@.contains_key(name@) ==> final(self)@ == old(self)@.insert(
                name@,
                encode_spec(AccountView::empty(name@, currency@)),
            ),
    {
        let exists = self.contains(name);
        match create(exists, name, currency) {
            Ok(account) => {
                self.write(name, encode(&account));
                Ok(account)
            },
            Err(e) => Err(e),
        }
    }

    /// Loads the account `name` from the document the store holds.
    pub fn load(&self, name: &str) -> (loaded: Result<Account, Error>)
        ensures
            is_account(loaded, load_result(document_of(self@, name@))),
    {
        load(self.read(name))
    }

    /// Persists `account` under its name, in the place of what was there.
    pub fn save(&mut self, account: &Account)
        ensures
            final(self)@ == old(self)@.insert(account@.name, encode_spec(account@)),
            load_result(document_of(final(self)@, account@.name)) == Ok::<AccountView, Error>(
                account@,
            ),
    {
        self.write(account.name(), encode(account));
    }
}

/// Two cycles that start from the same document and append the same
/// transaction give the same document, byte for byte, whatever the order
/// in which the tags of the transaction were given.
pub proof fn lemma_cycle_of_state(document: Option<Seq<u8>>, t: TransactionView, other: TransactionView)
    requires
        t.valid(),
        other.valid(),
        same_transaction(t, other),
    ensures
        append_result(document, t) == append_result(document, other),
{
    lemma_same_transaction(t, other);
}

/// Creating an account under a name that was just created fails with
/// `AlreadyExists`, and the store keeps the document of the first creation.
pub proof fn lemma_creation_collision(
    store: Map<Seq<char>, Seq<u8>>,
    name: Seq<char>,
    first_currency: Seq<char>,
    second_currency: Seq<char>,
)
    requires
        !store.contains_key(name),
    ensures
        ({
            let first = encode_spec(AccountView::empty(name, first_currency));
            let after = store.insert(name, first);
            &&& create_result(after.contains_key(name), name, second_currency) == Err::<
                AccountView,
                Error,
            >(Error::AlreadyExists)
            &&& document_of(after, name) == Some(first)
        }),
{
}

} // verus!
