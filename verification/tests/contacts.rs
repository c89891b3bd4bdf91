use ai_imessage::contacts::{
    ContactBook, ContactsError, DatabaseRead, NameRow, EMAILS_SQL, PHONES_SQL,
};
use rusqlite::Connection;

type ContactRow<'a> = (&'a str, &'a str, &'a str, &'a [&'a str], &'a [&'a str]);

fn build_db(rows: &[ContactRow]) -> Connection {
    let conn = Connection::open_in_memory().unwrap();
    conn.execute_batch(
        "CREATE TABLE ZABCDRECORD (
           Z_PK INTEGER PRIMARY KEY, ZFIRSTNAME TEXT, ZLASTNAME TEXT, ZORGANIZATION TEXT
         );
         CREATE TABLE ZABCDPHONENUMBER (
           Z_PK INTEGER PRIMARY KEY, ZOWNER INTEGER, ZFULLNUMBER TEXT
         );
         CREATE TABLE ZABCDEMAILADDRESS (
           Z_PK INTEGER PRIMARY KEY, ZOWNER INTEGER, ZADDRESS TEXT
         );",
    )
    .unwrap();
    for (first, last, org, phones, emails) in rows {
        conn.execute(
            "INSERT INTO ZABCDRECORD (ZFIRSTNAME, ZLASTNAME, ZORGANIZATION)
             VALUES (NULLIF(?1, ''), NULLIF(?2, ''), NULLIF(?3, ''))",
            (first, last, org),
        )
        .unwrap();
        let owner = conn.last_insert_rowid();
        for p in *phones {
            conn.execute(
                "INSERT INTO ZABCDPHONENUMBER (ZOWNER, ZFULLNUMBER) VALUES (?1, ?2)",
                (owner, p),
            )
            .unwrap();
        }
        for e in *emails {
            conn.execute(
                "INSERT INTO ZABCDEMAILADDRESS (ZOWNER, ZADDRESS) VALUES (?1, ?2)",
                (owner, e),
            )
            .unwrap();
        }
    }
    conn
}

fn rows(conn: &Connection, sql: &str) -> Vec<NameRow> {
    let mut stmt = conn.prepare(sql).unwrap();
    let rows = stmt
        .query_map([], |r| {
            Ok(NameRow {
                first: r.get(0)?,
                last: r.get(1)?,
                organization: r.get(2)?,
                value: r.get(3)?,
            })
        })
        .unwrap();
    rows.map(|r| r.unwrap()).collect()
}

fn read(conn: &Connection) -> DatabaseRead {
    DatabaseRead::Complete {
        phones: rows(conn, PHONES_SQL),
        emails: rows(conn, EMAILS_SQL),
    }
}

fn book_with(rows: &[ContactRow]) -> ContactBook {
    ContactBook::load("/contacts", &[read(&build_db(rows))]).unwrap()
}

#[test]
fn formatted_contact_number_matches_e164_handle() {
    let book = book_with(&[("Alice", "Smith", "", &["(916) 555-0100"], &[])]);
    assert_eq!(book.resolve("+19165550100"), Some("Alice Smith"));
}

#[test]
fn e164_contact_number_matches_e164_handle() {
    let book = book_with(&[("Alice", "Smith", "", &["+1 916-555-0100"], &[])]);
    assert_eq!(book.resolve("+19165550100"), Some("Alice Smith"));
}

#[test]
fn email_handles_match_case_insensitively() {
    let book = book_with(&[("Bob", "", "", &[], &["Bob@Example.COM"])]);
    assert_eq!(book.resolve("bob@example.com"), Some("Bob"));
}

#[test]
fn organization_is_the_fallback_name() {
    let book = book_with(&[("", "", "Dentist Office", &["555-0111"], &[])]);
    assert_eq!(book.resolve("5550111"), Some("Dentist Office"));
}

#[test]
fn unknown_handles_resolve_to_none() {
    let book = book_with(&[("Alice", "Smith", "", &["(916) 555-0100"], &[])]);
    assert_eq!(book.resolve("+19990000000"), None);
    assert_eq!(book.resolve("nobody@example.com"), None);
}

#[test]
fn sources_databases_are_merged() {
    let first = build_db(&[("Alice", "Smith", "", &["(916) 555-0100"], &[])]);
    let second = build_db(&[("Carol", "Jones", "", &["+1 (415) 555-0199"], &[])]);
    let book = ContactBook::load("/contacts", &[read(&first), read(&second)]).unwrap();
    assert_eq!(book.databases(), 2);
    assert_eq!(book.resolve("+19165550100"), Some("Alice Smith"));
    assert_eq!(book.resolve("+14155550199"), Some("Carol Jones"));
}

#[test]
fn missing_directory_is_an_error() {
    assert!(matches!(
        ContactBook::load("/contacts/nope", &[]),
        Err(ContactsError::NotFound(_))
    ));
}

#[test]
fn nameless_records_are_skipped() {
    let book = book_with(&[("", "", "", &["555-0122"], &[])]);
    assert_eq!(book.resolve("5550122"), None);
    assert_eq!(book.names(), 0);
}

#[test]
fn the_first_name_of_a_number_wins() {
    let book = book_with(&[
        ("Alice", "Smith", "", &["(916) 555-0100"], &[]),
        ("Alicia", "Other", "", &["916-555-0100"], &[]),
    ]);
    assert_eq!(book.resolve("+19165550100"), Some("Alice Smith"));
}

#[test]
fn an_unreadable_database_is_skipped_unless_it_is_the_only_one() {
    let error = || ContactsError::Open {
        path: "/contacts/AddressBook-v22.abcddb".into(),
        source: "denied".into(),
    };
    match ContactBook::load("/contacts", &[DatabaseRead::Unreadable(error())]) {
        Err(e) => {
            assert_eq!(e, error());
            assert_eq!(
                e.message(),
                "could not open Contacts database /contacts/AddressBook-v22.abcddb: denied"
            );
        }
        Ok(_) => panic!("nothing could be read"),
    }
    let good = build_db(&[("Alice", "Smith", "", &["(916) 555-0100"], &[])]);
    let book =
        ContactBook::load("/contacts", &[DatabaseRead::Unreadable(error()), read(&good)]).unwrap();
    assert_eq!(book.databases(), 1);
}

#[test]
fn numbers_read_before_a_failed_query_stay() {
    let good = build_db(&[("Alice", "Smith", "", &["(916) 555-0100"], &[])]);
    let half = DatabaseRead::PhonesOnly {
        phones: rows(&build_db(&[("Bob", "", "", &["555-0111"], &[])]), PHONES_SQL),
        error: ContactsError::Query {
            path: "/x".into(),
            source: "no such table".into(),
        },
    };
    let book = ContactBook::load("/contacts", &[half, read(&good)]).unwrap();
    assert_eq!(book.databases(), 1);
    assert_eq!(book.resolve("5550111"), Some("Bob"));
}
