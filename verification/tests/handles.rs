use ai_imessage::handles::normalize_handle;

#[test]
fn formatted_us_number_is_flattened() {
    assert_eq!(normalize_handle("+1 (555) 010-4477"), "+15550104477");
}

#[test]
fn dots_and_spaces_are_removed() {
    assert_eq!(normalize_handle("555.010.4477"), "5550104477");
    assert_eq!(normalize_handle("555 010 4477"), "5550104477");
}

#[test]
fn international_number_keeps_plus() {
    assert_eq!(normalize_handle("+49 170 1234567"), "+491701234567");
}

#[test]
fn email_is_lowercased_and_trimmed() {
    assert_eq!(
        normalize_handle("  Tim.J@Example.COM "),
        "tim.j@example.com"
    );
}

#[test]
fn email_case_of_local_part_is_lowercased_too() {
    // Messages treats handles case-insensitively; match that.
    assert_eq!(normalize_handle("USER@HOST.COM"), "user@host.com");
}

#[test]
fn short_codes_pass_through() {
    assert_eq!(normalize_handle("22395"), "22395");
}

#[test]
fn no_digits_passes_through_trimmed() {
    assert_eq!(normalize_handle("  unknown  "), "unknown");
}

#[test]
fn empty_string_stays_empty() {
    assert_eq!(normalize_handle(""), "");
}

#[test]
fn plus_without_digits_passes_through() {
    assert_eq!(normalize_handle("+"), "+");
}

#[test]
fn normalizing_twice_changes_nothing() {
    for raw in ["+1 (555) 010-4477", " A@B.c ", "22395", " x ", "+", ""] {
        let once = normalize_handle(raw);
        assert_eq!(normalize_handle(&once), once);
    }
}
