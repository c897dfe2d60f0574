use cex_engine::auth::bearer_token;

fn std_token(h: &str) -> Option<String> {
    let t = h.trim_start_matches("Bearer ").trim();
    if t.is_empty() {
        None
    } else {
        Some(t.to_string())
    }
}

#[test]
fn bearer_prefix_is_removed() {
    assert_eq!(bearer_token("Bearer abc.def.ghi"), Some("abc.def.ghi".to_string()));
}

#[test]
fn repeated_bearer_prefixes_are_all_removed() {
    assert_eq!(bearer_token("Bearer Bearer tok"), Some("tok".to_string()));
}

#[test]
fn token_without_scheme_is_taken_as_is() {
    assert_eq!(bearer_token("tok"), Some("tok".to_string()));
}

#[test]
fn white_space_around_the_token_is_trimmed() {
    assert_eq!(bearer_token("Bearer \t tok \n"), Some("tok".to_string()));
    assert_eq!(bearer_token("Bearer \u{3000}tok\u{a0}"), Some("tok".to_string()));
}

#[test]
fn leading_space_keeps_the_scheme_word() {
    assert_eq!(bearer_token("  Bearer tok"), Some("Bearer tok".to_string()));
}

#[test]
fn empty_token_is_refused() {
    assert_eq!(bearer_token(""), None);
    assert_eq!(bearer_token("Bearer "), None);
    assert_eq!(bearer_token("Bearer    "), None);
    assert_eq!(bearer_token("Bearer Bearer "), None);
}

#[test]
fn lowercase_scheme_is_not_a_prefix() {
    assert_eq!(bearer_token("bearer tok"), Some("bearer tok".to_string()));
}

#[test]
fn agrees_with_std_trimming() {
    let cases = [
        "Bearer x",
        "Bearerx",
        "Bearer",
        " Bearer x ",
        "Bearer Bearer  y\r\n",
        "\u{2003}z\u{2029}",
        "Bearer \u{85}",
        "Bearer é ü",
    ];
    for c in cases.iter() {
        assert_eq!(bearer_token(c), std_token(c), "header {:?}", c);
    }
}
