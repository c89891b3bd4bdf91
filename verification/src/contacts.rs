//! Contact names from the macOS Contacts (AddressBook) store.
//!
//! The store is a directory that holds `AddressBook-v22.abcddb` and one such
//! database per account under `Sources/<uuid>/`; all are read and merged, and
//! the first name of a handle wins.
use crate::handles;
use crate::handles::normalize_handle;
use crate::text;
use crate::text::{ascii_digits, chars_of, contains_char, substring, trim};
use vstd::hash_map::StringHashMap;
use vstd::prelude::*;
use vstd::string::*;

verus! {

/// Why the contacts could not be read.
#[derive(Debug, Clone, PartialEq, Eq)]
pub enum ContactsError {
    /// There is no Contacts database under this directory.
    NotFound(String),
    /// A database could not be opened.
    Open { path: String, source: String },
    /// A query failed.
    Query { path: String, source: String },
}

impl ContactsError {
    /// What the error says.
    pub open spec fn text(self) -> Seq<char> {
        match self {
            ContactsError::NotFound(root) => "no Contacts database found under "@ + root@,
            ContactsError::Open { path, source } => "could not open Contacts database "@ + path@
                + ": "@ + source@,
            ContactsError::Query { path, source } => "Contacts query failed in "@ + path@ + ": "@
                + source@,
        }
    }

    /// What the error says.
    pub fn message(&self) -> (r: String)
        ensures
            r@ == self.text(),
    {
        match self {
            ContactsError::NotFound(root) => {
                let mut s = "no Contacts database found under ".to_owned();
                s.append(root.as_str());
                s
            },
            ContactsError::Open { path, source } => {
                let mut s = "could not open Contacts database ".to_owned();
                s.append(path.as_str());
                s.append(": ");
                s.append(source.as_str());
                s
            },
            ContactsError::Query { path, source } => {
                let mut s = "Contacts query failed in ".to_owned();
                s.append(path.as_str());
                s.append(": ");
                s.append(source.as_str());
                s
            },
        }
    }
}

/// The phone numbers of an AddressBook database.
pub const PHONES_SQL: &'static str =
    "SELECT r.ZFIRSTNAME, r.ZLASTNAME, r.ZORGANIZATION, p.ZFULLNUMBER FROM ZABCDPHONENUMBER p JOIN ZABCDRECORD r ON r.Z_PK = p.ZOWNER WHERE p.ZFULLNUMBER IS NOT NULL";

/// The email addresses of an AddressBook database.
pub const EMAILS_SQL: &'static str =
    "SELECT r.ZFIRSTNAME, r.ZLASTNAME, r.ZORGANIZATION, e.ZADDRESS FROM ZABCDEMAILADDRESS e JOIN ZABCDRECORD r ON r.Z_PK = e.ZOWNER WHERE e.ZADDRESS IS NOT NULL";

/// One number or address of a contact, with the names on the contact's card.
#[derive(Debug, Clone)]
pub struct NameRow {
    pub first: Option<String>,
    pub last: Option<String>,
    pub organization: Option<String>,
    /// The phone number or email address.
    pub value: String,
}

/// What reading one AddressBook database gave.
#[derive(Debug)]
pub enum DatabaseRead {
    /// Both queries succeeded.
    Complete { phones: Vec<NameRow>, emails: Vec<NameRow> },
    /// The phone numbers could be read, the addresses could not.
    PhonesOnly { phones: Vec<NameRow>, error: ContactsError },
    /// Nothing could be read.
    Unreadable(ContactsError),
}

/// Handle to display-name lookup built from the AddressBook databases.
pub struct ContactBook {
    map: StringHashMap<String>,
    databases: usize,
}

/// The trimmed text of an optional name; empty when there is none.
pub open spec fn trimmed_or_empty(s: Option<String>) -> Seq<char> {
    match s {
        Some(s) => text::trimmed(s@),
        None => Seq::empty(),
    }
}

/// The name a contact goes by: first and last name, or the one there is, or
/// the organization.
pub open spec fn name_of(row: NameRow) -> Option<Seq<char>> {
    let first = trimmed_or_empty(row.first);
    let last = trimmed_or_empty(row.last);
    let org = trimmed_or_empty(row.organization);
    if first.len() > 0 && last.len() > 0 {
        Some(first + " "@ + last)
    } else if first.len() > 0 {
        Some(first)
    } else if last.len() > 0 {
        Some(last)
    } else if org.len() > 0 {
        Some(org)
    } else {
        None
    }
}

/// The keys a handle or number is looked up by, most specific first. Contacts
/// store numbers formatted ("(916) 555-0100") while Messages uses E.164
/// ("+19165550100"); to compare the digits, and then the last ten of them,
/// bridges the difference in country-code prefixes.
pub open spec fn keys_of(raw: Seq<char>) -> Seq<Seq<char>> {
    let n = handles::normalized(raw);
    let digits = text::digits_of(n);
    if n.contains('@') || digits.len() == 0 {
        seq![n]
    } else if digits.len() > 10 {
        seq![digits, text::last_chars(digits, 10)]
    } else {
        seq![digits]
    }
}

/// The names by key after one more pair: the first name of a key stays.
pub open spec fn with_name(
    m: Map<Seq<char>, Seq<char>>,
    key: Seq<char>,
    name: Seq<char>,
) -> Map<Seq<char>, Seq<char>> {
    if m.contains_key(key) {
        m
    } else {
        m.insert(key, name)
    }
}

/// The names by key after several keys were given one name.
pub open spec fn with_names(
    m: Map<Seq<char>, Seq<char>>,
    keys: Seq<Seq<char>>,
    name: Seq<char>,
) -> Map<Seq<char>, Seq<char>>
    decreases keys.len(),
{
    if keys.len() == 0 {
        m
    } else {
        with_name(with_names(m, keys.drop_last(), name), keys.last(), name)
    }
}

/// The names by key after one phone number.
pub open spec fn with_phone(m: Map<Seq<char>, Seq<char>>, row: NameRow) -> Map<
    Seq<char>,
    Seq<char>,
> {
    match name_of(row) {
        Some(name) => with_names(m, keys_of(row.value@), name),
        None => m,
    }
}

/// The names by key after one address.
pub open spec fn with_email(m: Map<Seq<char>, Seq<char>>, row: NameRow) -> Map<
    Seq<char>,
    Seq<char>,
> {
    match name_of(row) {
        Some(name) => with_name(m, handles::normalized(row.value@), name),
        None => m,
    }
}

/// The names by key after a list of phone numbers.
pub open spec fn with_phones(m: Map<Seq<char>, Seq<char>>, rows: Seq<NameRow>) -> Map<
    Seq<char>,
    Seq<char>,
>
    decreases rows.len(),
{
    if rows.len() == 0 {
        m
    } else {
        with_phone(with_phones(m, rows.drop_last()), rows.last())
    }
}

/// The names by key after a list of addresses.
pub open spec fn with_emails(m: Map<Seq<char>, Seq<char>>, rows: Seq<NameRow>) -> Map<
    Seq<char>,
    Seq<char>,
>
    decreases rows.len(),
{
    if rows.len() == 0 {
        m
    } else {
        with_email(with_emails(m, rows.drop_last()), rows.last())
    }
}

/// The names by key after one database.
pub open spec fn with_database(m: Map<Seq<char>, Seq<char>>, read: DatabaseRead) -> Map<
    Seq<char>,
    Seq<char>,
> {
    match read {
        DatabaseRead::Complete { phones, emails } => with_emails(
            with_phones(m, phones@),
            emails@,
        ),
        DatabaseRead::PhonesOnly { phones, .. } => with_phones(m, phones@),
        DatabaseRead::Unreadable(_) => m,
    }
}

/// The names by key after a list of databases.
pub open spec fn with_databases(reads: Seq<DatabaseRead>) -> Map<Seq<char>, Seq<char>>
    decreases reads.len(),
{
    if reads.len() == 0 {
        Map::empty()
    } else {
        with_database(with_databases(reads.drop_last()), reads.last())
    }
}

/// How many databases of a list were read whole.
pub open spec fn complete_reads(reads: Seq<DatabaseRead>) -> nat
    decreases reads.len(),
{
    if reads.len() == 0 {
        0
    } else {
        complete_reads(reads.drop_last()) + if reads.last() is Complete {
            1nat
        } else {
            0nat
        }
    }
}

/// The error of a database that was not read whole.
pub open spec fn error_of(read: DatabaseRead) -> Option<ContactsError> {
    match read {
        DatabaseRead::Complete { .. } => None,
        DatabaseRead::PhonesOnly { error, .. } => Some(error),
        DatabaseRead::Unreadable(error) => Some(error),
    }
}

/// The name found for a handle.
pub open spec fn name_for(m: Map<Seq<char>, Seq<char>>, handle: Seq<char>) -> Option<Seq<char>> {
    let keys = keys_of(handle);
    if m.contains_key(keys[0]) {
        Some(m[keys[0]])
    } else if keys.len() > 1 && m.contains_key(keys[1]) {
        Some(m[keys[1]])
    } else {
        None
    }
}

fn trim_opt(s: &Option<String>) -> (r: String)
    ensures
        r@ == trimmed_or_empty(*s),
{
    match s {
        Some(s) => trim(s.as_str()),
        None => String::new(),
    }
}

/// The name a contact goes by; none when every name is blank.
pub fn display_name(row: &NameRow) -> (r: Option<String>)
    ensures
        text::opt_view(r) == name_of(*row),
{
    let first = trim_opt(&row.first);
    let last = trim_opt(&row.last);
    let no_first = first.as_str().is_empty();
    let no_last = last.as_str().is_empty();
    if !no_first && !no_last {
        let mut s = first.clone();
        s.append(" ");
        s.append(last.as_str());
        Some(s)
    } else if !no_first {
        Some(first)
    } else if !no_last {
        Some(last)
    } else {
        let org = trim_opt(&row.organization);
        if org.as_str().is_empty() {
            None
        } else {
            Some(org)
        }
    }
}

/// The keys a handle or number is looked up by, most specific first.
pub fn phone_keys(raw: &str) -> (r: Vec<String>)
    ensures
        text::views(r@) == keys_of(raw@),
{
    let normalized = normalize_handle(raw);
    let digits = ascii_digits(normalized.as_str());
    let mut keys: Vec<String> = Vec::new();
    if contains_char(normalized.as_str(), '@') || digits.as_str().is_empty() {
        keys.push(normalized);
        proof {
            assert(text::views(keys@) =~= keys_of(raw@));
        }
        return keys;
    }
    let chars = chars_of(digits.as_str());
    if chars.len() > 10 {
        let tail = substring(&chars, chars.len() - 10, chars.len());
        proof {
            assert(tail@ =~= text::last_chars(digits@, 10));
        }
        keys.push(digits);
        keys.push(tail);
    } else {
        keys.push(digits);
    }
    proof {
        assert(text::views(keys@) =~= keys_of(raw@));
    }
    keys
}

fn copy_error(e: &ContactsError) -> (r: ContactsError)
    ensures
        r == *e,
{
    match e {
        ContactsError::NotFound(path) => ContactsError::NotFound(path.clone()),
        ContactsError::Open { path, source } => ContactsError::Open {
            path: path.clone(),
            source: source.clone(),
        },
        ContactsError::Query { path, source } => ContactsError::Query {
            path: path.clone(),
            source: source.clone(),
        },
    }
}

impl View for ContactBook {
    type V = Map<Seq<char>, Seq<char>>;

    closed spec fn view(&self) -> Map<Seq<char>, Seq<char>> {
        self.map@.map_values(|s: String| s@)
    }
}

impl ContactBook {
    /// How many databases were read whole.
    pub closed spec fn sources(&self) -> nat {
        self.databases as nat
    }

    /// A book without names.
    pub fn new() -> (r: ContactBook)
        ensures
            r@ == Map::<Seq<char>, Seq<char>>::empty(),
            r.sources() == 0,
    {
        let r = ContactBook { map: StringHashMap::new(), databases: 0 };
        proof {
            assert(r@ =~= Map::<Seq<char>, Seq<char>>::empty());
        }
        r
    }

    fn add_name(&mut self, key: String, name: &String)
        ensures
            final(self)@ == with_name(old(self)@, key@, name@),
            final(self).sources() == old(self).sources(),
    {
        if !self.map.contains_key(key.as_str()) {
            let ghost before = self@;
            let ghost k = key@;
            self.map.insert(key, name.clone());
            proof {
                assert(self@ =~= before.insert(k, name@));
            }
        }
    }

    fn add_phone(&mut self, row: &NameRow)
        ensures
            final(self)@ == with_phone(old(self)@, *row),
            final(self).sources() == old(self).sources(),
    {
        match display_name(row) {
            Some(name) => {
                let keys = phone_keys(row.value.as_str());
                let ghost before = self@;
                let ghost sources = self.sources();
                let ghost all = keys_of(row.value@);
                let mut i: usize = 0;
                proof {
                    assert(all.take(0) =~= Seq::<Seq<char>>::empty());
                }
                while i < keys.len()
                    invariant
                        i <= keys@.len(),
                        text::views(keys@) == all,
                        self@ == with_names(before, all.take(i as int), name@),
                        self.sources() == sources,
                    decreases keys@.len() - i,
                {
                    proof {
                        assert(all.take(i + 1).drop_last() =~= all.take(i as int));
                        assert(text::views(keys@)[i as int] == keys@[i as int]@);
                    }
                    self.add_name(keys[i].clone(), &name);
                    i = i + 1;
                }
                proof {
                    assert(all.take(i as int) =~= all);
                }
            },
            None => {},
        }
    }

    fn add_email(&mut self, row: &NameRow)
        ensures
            final(self)@ == with_email(old(self)@, *row),
            final(self).sources() == old(self).sources(),
    {
        match display_name(row) {
            Some(name) => {
                let key = normalize_handle(row.value.as_str());
                self.add_name(key, &name);
            },
            None => {},
        }
    }

    /// Adds the phone numbers of a database.
    pub fn add_phones(&mut self, rows: &[NameRow])
        ensures
            final(self)@ == with_phones(old(self)@, rows@),
            final(self).sources() == old(self).sources(),
    {
        let ghost before = self@;
        let ghost sources = self.sources();
        let mut i: usize = 0;
        while i < rows.len()
            invariant
                i <= rows@.len(),
                self@ == with_phones(before, rows@.take(i as int)),
                self.sources() == sources,
            decreases rows@.len() - i,
        {
            proof {
                assert(rows@.take(i + 1).drop_last() =~= rows@.take(i as int));
            }
            self.add_phone(&rows[i]);
            i = i + 1;
        }
        proof {
            assert(rows@.take(i as int) =~= rows@);
        }
    }

    /// Adds the addresses of a database.
    pub fn add_emails(&mut self, rows: &[NameRow])
        ensures
            final(self)@ == with_emails(old(self)@, rows@),
            final(self).sources() == old(self).sources(),
    {
        let ghost before = self@;
        let ghost sources = self.sources();
        let mut i: usize = 0;
        while i < rows.len()
            invariant
                i <= rows@.len(),
                self@ == with_emails(before, rows@.take(i as int)),
                self.sources() == sources,
            decreases rows@.len() - i,
        {
            proof {
                assert(rows@.take(i + 1).drop_last() =~= rows@.take(i as int));
            }
            self.add_email(&rows[i]);
            i = i + 1;
        }
        proof {
            assert(rows@.take(i as int) =~= rows@);
        }
    }

    /// Merges what was read of the databases found under `root`, in order.
    /// An error only when there is no database or none could be read whole;
    /// then it is the error of the last one.
    pub fn load(root: &str, reads: &[DatabaseRead]) -> (r: Result<ContactBook, ContactsError>)
        ensures
            r is Ok <==> complete_reads(reads@) > 0,
            r matches Ok(book) ==> book@ == with_databases(reads@) && book.sources()
                == complete_reads(reads@),
            r matches Err(e) ==> (if reads@.len() == 0 {
                e matches ContactsError::NotFound(path) && path@ == root@
            } else {
                error_of(reads@.last()) matches Some(last) && e == last
            }),
    {
        if reads.len() == 0 {
            return Err(ContactsError::NotFound(root.to_owned()));
        }
        let mut book = ContactBook::new();
        let mut i: usize = 0;
        while i < reads.len()
            invariant
                i <= reads@.len(),
                book@ == with_databases(reads@.take(i as int)),
                book.databases == complete_reads(reads@.take(i as int)),
                book.databases <= i,
            decreases reads@.len() - i,
        {
            proof {
                assert(reads@.take(i + 1).drop_last() =~= reads@.take(i as int));
            }
            match &reads[i] {
                DatabaseRead::Complete { phones, emails } => {
                    book.add_phones(phones);
                    book.add_emails(emails);
                    let ghost m = book@;
                    book.databases = book.databases + 1;
                    assert(book@ == m);
                },
                DatabaseRead::PhonesOnly { phones, .. } => {
                    book.add_phones(phones);
                },
                DatabaseRead::Unreadable(_) => {},
            }
            i = i + 1;
        }
        proof {
            assert(reads@.take(i as int) =~= reads@);
        }
        if book.databases > 0 {
            return Ok(book);
        }
        match &reads[reads.len() - 1] {
            DatabaseRead::Complete { .. } => Ok(book),
            DatabaseRead::PhonesOnly { error, .. } => Err(copy_error(error)),
            DatabaseRead::Unreadable(error) => Err(copy_error(error)),
        }
    }

    /// Resolves a Messages handle (E.164 phone or email) to a contact name.
    pub fn resolve(&self, handle: &str) -> (r: Option<&str>)
        ensures
            r is Some <==> name_for(self@, handle@) is Some,
            r matches Some(name) ==> name_for(self@, handle@) == Some(name@),
    {
        let keys = phone_keys(handle);
        proof {
            assert(keys_of(handle@).len() > 0);
            assert(text::views(keys@).len() == keys@.len());
            assert(text::views(keys@)[0] == keys@[0]@);
        }
        match self.map.get(keys[0].as_str()) {
            Some(name) => {
                return Some(name.as_str());
            },
            None => {},
        }
        if keys.len() > 1 {
            proof {
                assert(text::views(keys@)[1] == keys@[1]@);
            }
            match self.map.get(keys[1].as_str()) {
                Some(name) => {
                    return Some(name.as_str());
                },
                None => {},
            }
        }
        None
    }

    /// How many keys have a name.
    pub fn names(&self) -> (r: usize)
        ensures
            r == self@.len(),
    {
        proof {
            assert(self@.dom() =~= self.map@.dom());
        }
        self.map.len()
    }

    /// How many databases were read whole.
    pub fn databases(&self) -> (r: usize)
        ensures
            r == self.sources(),
    {
        self.databases
    }
}

/// A key keeps the name it was given first, whatever is read later.
pub proof fn law_first_name_wins(
    m: Map<Seq<char>, Seq<char>>,
    read: DatabaseRead,
    key: Seq<char>,
)
    requires
        m.contains_key(key),
    ensures
        with_database(m, read).contains_key(key),
        with_database(m, read)[key] == m[key],
{
    match read {
        DatabaseRead::Complete { phones, emails } => {
            lemma_phones_keep(m, phones@, key);
            lemma_emails_keep(with_phones(m, phones@), emails@, key);
        },
        DatabaseRead::PhonesOnly { phones, .. } => {
            lemma_phones_keep(m, phones@, key);
        },
        DatabaseRead::Unreadable(_) => {},
    }
}

proof fn lemma_names_keep(
    m: Map<Seq<char>, Seq<char>>,
    keys: Seq<Seq<char>>,
    name: Seq<char>,
    key: Seq<char>,
)
    requires
        m.contains_key(key),
    ensures
        with_names(m, keys, name).contains_key(key),
        with_names(m, keys, name)[key] == m[key],
    decreases keys.len(),
{
    if keys.len() > 0 {
        lemma_names_keep(m, keys.drop_last(), name, key);
    }
}

proof fn lemma_phones_keep(m: Map<Seq<char>, Seq<char>>, rows: Seq<NameRow>, key: Seq<char>)
    requires
        m.contains_key(key),
    ensures
        with_phones(m, rows).contains_key(key),
        with_phones(m, rows)[key] == m[key],
    decreases rows.len(),
{
    if rows.len() > 0 {
        lemma_phones_keep(m, rows.drop_last(), key);
        match name_of(rows.last()) {
            Some(name) => {
                lemma_names_keep(
                    with_phones(m, rows.drop_last()),
                    keys_of(rows.last().value@),
                    name,
                    key,
                );
            },
            None => {},
        }
    }
}

proof fn lemma_emails_keep(m: Map<Seq<char>, Seq<char>>, rows: Seq<NameRow>, key: Seq<char>)
    requires
        m.contains_key(key),
    ensures
        with_emails(m, rows).contains_key(key),
        with_emails(m, rows)[key] == m[key],
    decreases rows.len(),
{
    if rows.len() > 0 {
        lemma_emails_keep(m, rows.drop_last(), key);
    }
}

proof fn lemma_names_hold(
    m: Map<Seq<char>, Seq<char>>,
    keys: Seq<Seq<char>>,
    name: Seq<char>,
    k: int,
)
    requires
        0 <= k < keys.len(),
    ensures
        with_names(m, keys, name).contains_key(keys[k]),
    decreases keys.len(),
{
    if k < keys.len() - 1 {
        lemma_names_hold(m, keys.drop_last(), name, k);
    }
}

/// A number on a card that has a name is found by every handle that shares a
/// key with it: the same digits, or the same last ten.
pub proof fn law_shared_key_resolves(
    m: Map<Seq<char>, Seq<char>>,
    row: NameRow,
    handle: Seq<char>,
    i: int,
    j: int,
)
    requires
        name_of(row) is Some,
        0 <= i < keys_of(row.value@).len(),
        0 <= j < keys_of(handle).len(),
        keys_of(row.value@)[i] == keys_of(handle)[j],
    ensures
        name_for(with_phone(m, row), handle) is Some,
{
    lemma_names_hold(m, keys_of(row.value@), name_of(row)->0, i);
}

/// Whether a number on a card is that of a handle: neither is an address, and
/// they have the same digits, or at least ten each of which the last ten are the
/// same, however they are written.
pub open spec fn same_number(value: Seq<char>, handle: Seq<char>) -> bool {
    let a = value.filter(|c: char| '0' <= c && c <= '9');
    let b = handle.filter(|c: char| '0' <= c && c <= '9');
    &&& !value.contains('@')
    &&& !handle.contains('@')
    &&& a.len() > 0
    &&& a == b || (a.len() >= 10 && b.len() >= 10 && a.skip(a.len() - 10) == b.skip(b.len() - 10))
}

/// The keys of a number: its digits, and, where it has more, the last ten.
proof fn lemma_keys_of_number(raw: Seq<char>)
    requires
        !raw.contains('@'),
        raw.filter(|c: char| '0' <= c && c <= '9').len() > 0,
    ensures
        ({
            let d = raw.filter(|c: char| '0' <= c && c <= '9');
            keys_of(raw) == if d.len() > 10 {
                seq![d, d.skip(d.len() - 10)]
            } else {
                seq![d]
            }
        }),
{
    handles::law_normal_form_keeps_the_digits(raw);
    text::lemma_digits_filter(handles::normalized(raw));
}

proof fn lemma_shared_number(value: Seq<char>, handle: Seq<char>) -> (r: (int, int))
    requires
        same_number(value, handle),
    ensures
        0 <= r.0 < keys_of(value).len(),
        0 <= r.1 < keys_of(handle).len(),
        keys_of(value)[r.0] == keys_of(handle)[r.1],
{
    let a = value.filter(|c: char| '0' <= c && c <= '9');
    let b = handle.filter(|c: char| '0' <= c && c <= '9');
    lemma_keys_of_number(value);
    lemma_keys_of_number(handle);
    assert(a.len() == 10 ==> a.skip(a.len() - 10) =~= a);
    assert(b.len() == 10 ==> b.skip(b.len() - 10) =~= b);
    if a == b {
        (0, 0)
    } else if a.len() > 10 && b.len() > 10 {
        (1, 1)
    } else if a.len() > 10 {
        (1, 0)
    } else if b.len() > 10 {
        (0, 1)
    } else {
        (0, 0)
    }
}

proof fn lemma_only_name(keys: Seq<Seq<char>>, name: Seq<char>, key: Seq<char>)
    ensures
        with_names(Map::empty(), keys, name).contains_key(key) ==> with_names(
            Map::empty(),
            keys,
            name,
        )[key] == name,
    decreases keys.len(),
{
    if keys.len() > 0 {
        lemma_only_name(keys.drop_last(), name, key);
        lemma_only_name(keys.drop_last(), name, keys.last());
    }
}

/// A number on a card that has a name gives a name to every handle with that
/// number: the same digits, or the same last ten of at least ten, whatever the
/// country code, the spaces and the brackets. In a book without any other card
/// that name is the card's.
pub proof fn law_same_number_resolves(
    m: Map<Seq<char>, Seq<char>>,
    row: NameRow,
    handle: Seq<char>,
)
    requires
        name_of(row) is Some,
        same_number(row.value@, handle),
    ensures
        name_for(with_phone(m, row), handle) is Some,
        m == Map::<Seq<char>, Seq<char>>::empty() ==> name_for(with_phone(m, row), handle)
            == name_of(row),
{
    let (i, j) = lemma_shared_number(row.value@, handle);
    law_shared_key_resolves(m, row, handle, i, j);
    if m == Map::<Seq<char>, Seq<char>>::empty() {
        let keys = keys_of(handle);
        lemma_only_name(keys_of(row.value@), name_of(row)->0, keys[0]);
        lemma_only_name(keys_of(row.value@), name_of(row)->0, keys[1]);
    }
}

/// The phone numbers that were read of a database.
pub open spec fn phones_in(read: DatabaseRead) -> Seq<NameRow> {
    match read {
        DatabaseRead::Complete { phones, .. } => phones@,
        DatabaseRead::PhonesOnly { phones, .. } => phones@,
        DatabaseRead::Unreadable(_) => Seq::empty(),
    }
}

/// The addresses that were read of a database.
pub open spec fn emails_in(read: DatabaseRead) -> Seq<NameRow> {
    match read {
        DatabaseRead::Complete { emails, .. } => emails@,
        _ => Seq::empty(),
    }
}

proof fn lemma_phones_hold(
    m: Map<Seq<char>, Seq<char>>,
    rows: Seq<NameRow>,
    j: int,
    k: int,
)
    requires
        0 <= j < rows.len(),
        name_of(rows[j]) is Some,
        0 <= k < keys_of(rows[j].value@).len(),
    ensures
        with_phones(m, rows).contains_key(keys_of(rows[j].value@)[k]),
    decreases rows.len(),
{
    let front = rows.drop_last();
    let key = keys_of(rows[j].value@)[k];
    if j < front.len() {
        lemma_phones_hold(m, front, j, k);
        match name_of(rows.last()) {
            Some(name) => {
                lemma_names_keep(
                    with_phones(m, front),
                    keys_of(rows.last().value@),
                    name,
                    key,
                );
            },
            None => {},
        }
    } else {
        lemma_names_hold(with_phones(m, front), keys_of(rows[j].value@), name_of(rows[j])->0, k);
    }
}

proof fn lemma_emails_hold(m: Map<Seq<char>, Seq<char>>, rows: Seq<NameRow>, j: int)
    requires
        0 <= j < rows.len(),
        name_of(rows[j]) is Some,
    ensures
        with_emails(m, rows).contains_key(handles::normalized(rows[j].value@)),
    decreases rows.len(),
{
    if j < rows.len() - 1 {
        lemma_emails_hold(m, rows.drop_last(), j);
    }
}

proof fn lemma_databases_keep(reads: Seq<DatabaseRead>, i: int, key: Seq<char>)
    requires
        0 <= i < reads.len(),
        with_databases(reads.take(i + 1)).contains_key(key),
    ensures
        with_databases(reads).contains_key(key),
    decreases reads.len(),
{
    if i < reads.len() - 1 {
        assert(reads.drop_last().take(i + 1) =~= reads.take(i + 1));
        lemma_databases_keep(reads.drop_last(), i, key);
        law_first_name_wins(with_databases(reads.drop_last()), reads.last(), key);
    } else {
        assert(reads.take(i + 1) =~= reads);
    }
}

/// Every named card of every database counts: a handle with the number of one
/// has a name in the book, whichever database the card is in and wherever it
/// stands there.
pub proof fn law_every_card_counts(reads: Seq<DatabaseRead>, i: int, j: int, handle: Seq<char>)
    requires
        0 <= i < reads.len(),
        0 <= j < phones_in(reads[i]).len(),
        name_of(phones_in(reads[i])[j]) is Some,
        same_number(phones_in(reads[i])[j].value@, handle),
    ensures
        name_for(with_databases(reads), handle) is Some,
{
    let rows = phones_in(reads[i]);
    let (a, b) = lemma_shared_number(rows[j].value@, handle);
    let key = keys_of(handle)[b];
    let upto = reads.take(i + 1);
    assert(upto.drop_last() =~= reads.take(i));
    let m = with_databases(reads.take(i));
    lemma_phones_hold(m, rows, j, a);
    assert(with_databases(upto).contains_key(key)) by {
        match reads[i] {
            DatabaseRead::Complete { phones, emails } => {
                lemma_emails_keep(with_phones(m, phones@), emails@, key);
            },
            _ => {},
        }
    }
    lemma_databases_keep(reads, i, key);
}

/// Whether two texts are the same, the case of ASCII letters aside.
pub open spec fn same_but_case(a: Seq<char>, b: Seq<char>) -> bool {
    &&& a.len() == b.len()
    &&& forall|i: int|
        #![trigger a[i]]
        #![trigger b[i]]
        0 <= i < a.len() ==> a[i] == b[i] || ('A' <= a[i] && a[i] <= 'Z' && b[i] as int == a[i]
            as int + 32) || ('A' <= b[i] && b[i] <= 'Z' && a[i] as int == b[i] as int + 32)
}

/// Every address of a named card counts: a handle that is the address, spaces
/// around it and the case of its letters aside, has a name in the book.
pub proof fn law_every_address_counts(reads: Seq<DatabaseRead>, i: int, j: int, handle: Seq<char>)
    requires
        0 <= i < reads.len(),
        0 <= j < emails_in(reads[i]).len(),
        name_of(emails_in(reads[i])[j]) is Some,
        handle.contains('@'),
        emails_in(reads[i])[j].value@.contains('@'),
        same_but_case(text::trimmed(emails_in(reads[i])[j].value@), text::trimmed(handle)),
    ensures
        name_for(with_databases(reads), handle) is Some,
{
    let rows = emails_in(reads[i]);
    let v = rows[j].value@;
    text::lemma_trimming_keeps(v, '@');
    text::lemma_trimming_keeps(handle, '@');
    handles::law_normal_form_keeps_the_digits(handle);
    let a = text::trimmed(v);
    let b = text::trimmed(handle);
    assert forall|k: int| 0 <= k < a.len() implies text::lower_char(a[k]) == text::lower_char(
        b[k],
    ) by {
        let x = a[k];
        let y = b[k];
    }
    assert(text::lowered(a) =~= text::lowered(b));
    let key = keys_of(handle)[0];
    assert(key == handles::normalized(v));
    let upto = reads.take(i + 1);
    assert(upto.drop_last() =~= reads.take(i));
    let m = with_databases(reads.take(i));
    lemma_emails_hold(with_phones(m, phones_in(reads[i])), rows, j);
    assert(with_databases(upto).contains_key(key));
    lemma_databases_keep(reads, i, key);
}

/// Whether a card that was read carries a name and a number or address with a
/// key.
spec fn carries(reads: Seq<DatabaseRead>, key: Seq<char>, name: Seq<char>) -> bool {
    exists|i: int, j: int|
        0 <= i < reads.len() && #[trigger] is_card(reads[i], j, key, name)
}

spec fn is_card(read: DatabaseRead, j: int, key: Seq<char>, name: Seq<char>) -> bool {
    is_phone(read, j, key, name) || is_email(read, j, key, name)
}

spec fn is_phone(read: DatabaseRead, j: int, key: Seq<char>, name: Seq<char>) -> bool {
    0 <= j < phones_in(read).len() && name_of(phones_in(read)[j]) == Some(name) && keys_of(
        phones_in(read)[j].value@,
    ).contains(key)
}

spec fn is_email(read: DatabaseRead, j: int, key: Seq<char>, name: Seq<char>) -> bool {
    0 <= j < emails_in(read).len() && name_of(emails_in(read)[j]) == Some(name)
        && handles::normalized(emails_in(read)[j].value@) == key
}

proof fn lemma_names_source(
    m: Map<Seq<char>, Seq<char>>,
    keys: Seq<Seq<char>>,
    name: Seq<char>,
    key: Seq<char>,
)
    requires
        with_names(m, keys, name).contains_key(key),
    ensures
        m.contains_key(key) && with_names(m, keys, name)[key] == m[key] || keys.contains(key)
            && with_names(m, keys, name)[key] == name,
    decreases keys.len(),
{
    if keys.len() > 0 {
        let front = keys.drop_last();
        assert(keys[keys.len() - 1] == keys.last());
        if with_names(m, front, name).contains_key(key) {
            lemma_names_source(m, front, name, key);
            if front.contains(key) {
                let k = choose|k: int| 0 <= k < front.len() && front[k] == key;
                assert(keys[k] == key);
            }
        }
    }
}

proof fn lemma_phones_source(
    m: Map<Seq<char>, Seq<char>>,
    rows: Seq<NameRow>,
    key: Seq<char>,
) -> (j: int)
    requires
        with_phones(m, rows).contains_key(key),
    ensures
        m.contains_key(key) && with_phones(m, rows)[key] == m[key] || (0 <= j < rows.len()
            && name_of(rows[j]) == Some(with_phones(m, rows)[key]) && keys_of(
            rows[j].value@,
        ).contains(key)),
    decreases rows.len(),
{
    if rows.len() == 0 {
        0
    } else {
        let front = rows.drop_last();
        let before = with_phones(m, front);
        match name_of(rows.last()) {
            Some(name) => {
                lemma_names_source(before, keys_of(rows.last().value@), name, key);
            },
            None => {},
        }
        if before.contains_key(key) && with_phones(m, rows)[key] == before[key] {
            lemma_phones_source(m, front, key)
        } else {
            rows.len() - 1
        }
    }
}

proof fn lemma_emails_source(
    m: Map<Seq<char>, Seq<char>>,
    rows: Seq<NameRow>,
    key: Seq<char>,
) -> (j: int)
    requires
        with_emails(m, rows).contains_key(key),
    ensures
        m.contains_key(key) && with_emails(m, rows)[key] == m[key] || (0 <= j < rows.len()
            && name_of(rows[j]) == Some(with_emails(m, rows)[key]) && handles::normalized(
            rows[j].value@,
        ) == key),
    decreases rows.len(),
{
    if rows.len() == 0 {
        0
    } else {
        let front = rows.drop_last();
        let before = with_emails(m, front);
        if before.contains_key(key) && with_emails(m, rows)[key] == before[key] {
            lemma_emails_source(m, front, key)
        } else {
            rows.len() - 1
        }
    }
}

proof fn lemma_databases_source(reads: Seq<DatabaseRead>, key: Seq<char>)
    requires
        with_databases(reads).contains_key(key),
    ensures
        carries(reads, key, with_databases(reads)[key]),
    decreases reads.len(),
{
    if reads.len() > 0 {
        let front = reads.drop_last();
        let n = reads.len() - 1;
        let last = reads[n];
        let before = with_databases(front);
        let name = with_databases(reads)[key];
        let phones = phones_in(last);
        let mid = with_phones(before, phones);
        assert(reads.last() == last);
        if before.contains_key(key) {
            law_first_name_wins(before, last, key);
            lemma_databases_source(front, key);
            let (i, j) = choose|i: int, j: int|
                0 <= i < front.len() && #[trigger] is_card(front[i], j, key, name);
            assert(front[i] == reads[i]);
            assert(is_card(reads[i], j, key, name));
        } else {
            match last {
                DatabaseRead::Complete { phones, emails } => {
                    let e = lemma_emails_source(mid, emails@, key);
                    if mid.contains_key(key) && name == mid[key] {
                        let j = lemma_phones_source(before, phones@, key);
                        assert(is_card(reads[n], j, key, name));
                    } else {
                        assert(is_card(reads[n], e, key, name));
                    }
                },
                DatabaseRead::PhonesOnly { phones, .. } => {
                    let j = lemma_phones_source(before, phones@, key);
                    assert(is_card(reads[n], j, key, name));
                },
                DatabaseRead::Unreadable(_) => {},
            }
        }
    }
}

/// Whether a card's number or address is that of a handle.
pub open spec fn is_of_handle(value: Seq<char>, handle: Seq<char>) -> bool {
    same_number(value, handle) || handles::normalized(value) == handles::normalized(handle)
}

/// Whether a text is a number: no address, and with a digit.
spec fn is_number(raw: Seq<char>) -> bool {
    !raw.contains('@') && raw.filter(|c: char| '0' <= c && c <= '9').len() > 0
}

proof fn lemma_number_key(raw: Seq<char>, key: Seq<char>)
    requires
        is_number(raw),
        keys_of(raw).contains(key),
    ensures
        ({
            let d = raw.filter(|c: char| '0' <= c && c <= '9');
            key == d || (d.len() > 10 && key == d.skip(d.len() - 10))
        }),
        key.len() > 0,
        forall|i: int| 0 <= i < key.len() ==> text::is_digit(#[trigger] key[i]),
{
    let d = raw.filter(|c: char| '0' <= c && c <= '9');
    lemma_keys_of_number(raw);
    text::lemma_digits_filter(raw);
    text::lemma_digits_are_digits(raw);
    if key != d {
        assert forall|i: int| 0 <= i < key.len() implies text::is_digit(#[trigger] key[i]) by {
            assert(key[i] == d[i + d.len() - 10]);
        }
    }
}

/// A text that is no number has itself for a key, which is no run of digits.
proof fn lemma_text_key(raw: Seq<char>, key: Seq<char>)
    requires
        !is_number(raw),
        keys_of(raw).contains(key) || key == handles::normalized(raw),
    ensures
        key == handles::normalized(raw),
        key.len() > 0 ==> exists|i: int| 0 <= i < key.len() && !text::is_digit(#[trigger] key[i]),
{
    handles::law_normal_form_keeps_the_digits(raw);
    text::lemma_digits_filter(handles::normalized(raw));
    if key.len() > 0 {
        if key.contains('@') {
            let k = choose|k: int| 0 <= k < key.len() && key[k] == '@';
            assert(!text::is_digit(key[k]));
        } else if forall|i: int| 0 <= i < key.len() ==> text::is_digit(#[trigger] key[i]) {
            text::lemma_digits_fixed(key);
            assert(false);
        }
    }
}

/// Numbers that share a key are the same number, or the same text.
proof fn lemma_shared_key(value: Seq<char>, handle: Seq<char>, key: Seq<char>)
    requires
        keys_of(handle).contains(key),
        keys_of(value).contains(key) || handles::normalized(value) == key,
    ensures
        is_of_handle(value, handle),
{
    let a = value.filter(|c: char| '0' <= c && c <= '9');
    let b = handle.filter(|c: char| '0' <= c && c <= '9');
    assert(a.len() == 10 ==> a.skip(a.len() - 10) =~= a);
    assert(b.len() == 10 ==> b.skip(b.len() - 10) =~= b);
    if is_number(handle) {
        lemma_number_key(handle, key);
        if is_number(value) {
            if keys_of(value).contains(key) {
                lemma_number_key(value, key);
            } else {
                handles::law_normal_form_keeps_the_digits(value);
                assert(key[0] != '+');
            }
        } else {
            lemma_text_key(value, key);
        }
    } else {
        lemma_text_key(handle, key);
        if is_number(value) && keys_of(value).contains(key) {
            lemma_number_key(value, key);
        } else if !is_number(value) {
            lemma_text_key(value, key);
        }
    }
}

/// No handle goes by a stranger's name: the name that the book gives a handle is
/// that of a card which was read and which has the handle's number or address.
pub proof fn law_names_come_from_the_handles_cards(reads: Seq<DatabaseRead>, handle: Seq<char>)
    requires
        name_for(with_databases(reads), handle) is Some,
    ensures
        exists|i: int, j: int|
            0 <= i < reads.len() && ((0 <= j < phones_in(reads[i]).len() && is_of_handle(
                (#[trigger] phones_in(reads[i])[j]).value@,
                handle,
            ) && name_of(phones_in(reads[i])[j]) == name_for(with_databases(reads), handle)) || (0
                <= j < emails_in(reads[i]).len() && is_of_handle(
                emails_in(reads[i])[j].value@,
                handle,
            ) && name_of(emails_in(reads[i])[j]) == name_for(with_databases(reads), handle))),
{
    let m = with_databases(reads);
    let keys = keys_of(handle);
    let key = if m.contains_key(keys[0]) {
        keys[0]
    } else {
        keys[1]
    };
    assert(keys.contains(key));
    let name = m[key];
    lemma_databases_source(reads, key);
    let (i, j) = choose|i: int, j: int|
        0 <= i < reads.len() && #[trigger] is_card(reads[i], j, key, name);
    if is_phone(reads[i], j, key, name) {
        lemma_shared_key(phones_in(reads[i])[j].value@, handle, key);
        assert(phones_in(reads[i])[j].value@ == phones_in(reads[i])[j].value@);
    } else {
        lemma_shared_key(emails_in(reads[i])[j].value@, handle, key);
        let x = phones_in(reads[i])[j];
    }
}

/// What a card goes by: its first and its last name with one space between
/// them, where it has both; else the one it has; else its organization. White
/// space around a name does not count, and a name of nothing else is none.
pub proof fn law_what_a_card_goes_by(row: NameRow)
    ensures
        ({
            let first = if row.first is Some {
                text::trimmed(row.first->0@)
            } else {
                Seq::empty()
            };
            let last = if row.last is Some {
                text::trimmed(row.last->0@)
            } else {
                Seq::empty()
            };
            let org = if row.organization is Some {
                text::trimmed(row.organization->0@)
            } else {
                Seq::empty()
            };
            &&& name_of(row) is None <==> first.len() == 0 && last.len() == 0 && org.len() == 0
            &&& first.len() > 0 && last.len() > 0 ==> name_of(row) == Some(first + seq![' '] + last)
            &&& first.len() > 0 && last.len() == 0 ==> name_of(row) == Some(first)
            &&& first.len() == 0 && last.len() > 0 ==> name_of(row) == Some(last)
            &&& first.len() == 0 && last.len() == 0 && org.len() > 0 ==> name_of(row) == Some(org)
        }),
{
    reveal_strlit(" ");
    assert(" "@ =~= seq![' ']);
}

/// The first row of a list that carries a key gives it its name.
proof fn lemma_first_row(m: Map<Seq<char>, Seq<char>>, rows: Seq<NameRow>, j: int, key: Seq<char>)
    requires
        !m.contains_key(key),
        0 <= j < rows.len(),
        name_of(rows[j]) is Some,
        keys_of(rows[j].value@).contains(key),
        forall|k: int|
            0 <= k < j && name_of(#[trigger] rows[k]) is Some ==> !keys_of(
                rows[k].value@,
            ).contains(key),
    ensures
        with_phones(m, rows).contains_key(key),
        with_phones(m, rows)[key] == name_of(rows[j])->0,
    decreases rows.len(),
{
    let front = rows.drop_last();
    let n = rows.len() - 1;
    let before = with_phones(m, front);
    assert(rows.last() == rows[n]);
    assert forall|k: int| 0 <= k < front.len() implies front[k] == rows[k] by {}
    if j < n {
        lemma_first_row(m, front, j, key);
        if name_of(rows[n]) is Some {
            lemma_names_keep(before, keys_of(rows[n].value@), name_of(rows[n])->0, key);
        }
    } else {
        if before.contains_key(key) {
            let k = lemma_phones_source(m, front, key);
            assert(front[k] == rows[k]);
        }
        let keys = keys_of(rows[n].value@);
        let x = choose|x: int| 0 <= x < keys.len() && keys[x] == key;
        lemma_names_hold(before, keys, name_of(rows[n])->0, x);
        lemma_names_source(before, keys, name_of(rows[n])->0, key);
    }
}

/// Of several cards with a number the first gives it its name. Which cards those
/// are is told by the digits: for a number of up to ten digits the cards with the
/// same number; for a longer one those with the same digits, all of them.
pub proof fn law_first_card_of_a_number_wins(
    m: Map<Seq<char>, Seq<char>>,
    rows: Seq<NameRow>,
    j: int,
    handle: Seq<char>,
)
    requires
        name_for(m, handle) is None,
        !handle.contains('@'),
        handle.filter(|c: char| '0' <= c && c <= '9').len() > 0,
        0 <= j < rows.len(),
        name_of(rows[j]) is Some,
        has_digits(rows[j].value@, handle),
        forall|k: int|
            0 <= k < j && name_of(#[trigger] rows[k]) is Some ==> !has_digits(
                rows[k].value@,
                handle,
            ),
    ensures
        name_for(with_phones(m, rows), handle) == name_of(rows[j]),
{
    let d = handle.filter(|c: char| '0' <= c && c <= '9');
    lemma_keys_of_number(handle);
    lemma_has_digits(rows[j].value@, handle);
    assert forall|k: int| 0 <= k < j && name_of(#[trigger] rows[k]) is Some implies !keys_of(
        rows[k].value@,
    ).contains(d) by {
        lemma_has_digits(rows[k].value@, handle);
    }
    lemma_first_row(m, rows, j, d);
}

/// Whether a card's number is found by a handle before any other: it has the same
/// digits or, where the handle has just ten, ends with them.
pub open spec fn has_digits(value: Seq<char>, handle: Seq<char>) -> bool {
    let a = value.filter(|c: char| '0' <= c && c <= '9');
    let b = handle.filter(|c: char| '0' <= c && c <= '9');
    !value.contains('@') && (a == b || (b.len() == 10 && a.len() > 10 && a.skip(a.len() - 10) == b))
}

proof fn lemma_has_digits(value: Seq<char>, handle: Seq<char>)
    requires
        !handle.contains('@'),
        handle.filter(|c: char| '0' <= c && c <= '9').len() > 0,
    ensures
        has_digits(value, handle) <==> keys_of(value).contains(
            handle.filter(|c: char| '0' <= c && c <= '9'),
        ),
{
    let a = value.filter(|c: char| '0' <= c && c <= '9');
    let b = handle.filter(|c: char| '0' <= c && c <= '9');
    text::lemma_digits_filter(handle);
    text::lemma_digits_are_digits(handle);
    if is_number(value) {
        lemma_keys_of_number(value);
        let keys = keys_of(value);
        if keys.contains(b) {
            lemma_number_key(value, b);
        }
        if a == b {
            assert(keys[0] == b);
        } else if has_digits(value, handle) {
            assert(keys[1] == b);
        }
    } else if keys_of(value).contains(b) {
        lemma_text_key(value, b);
        let i = choose|i: int| 0 <= i < b.len() && !text::is_digit(#[trigger] b[i]);
        assert(text::is_digit(b[i]));
    }
}

/// How many databases count as read: those that were read whole. The error of one
/// that was not is its own.
pub proof fn law_which_databases_count(reads: Seq<DatabaseRead>)
    ensures
        complete_reads(reads) == reads.filter(|r: DatabaseRead| r is Complete).len(),
    decreases reads.len(),
{
    reveal(Seq::filter);
    if reads.len() > 0 {
        law_which_databases_count(reads.drop_last());
    }
}

} // verus!
