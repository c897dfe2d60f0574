use cex_engine::users::UserStore;

#[test]
fn signup_assigns_increasing_ids() {
    let mut u = UserStore::new();
    assert_eq!(u.signup(&"alice".to_string(), &"pw".to_string()), Some(1));
    assert_eq!(u.signup(&"bob".to_string(), &"pw2".to_string()), Some(2));
    assert_eq!(u.user_index(), 2);
}

#[test]
fn signup_refuses_taken_name() {
    let mut u = UserStore::new();
    u.signup(&"alice".to_string(), &"pw".to_string());
    assert_eq!(u.signup(&"alice".to_string(), &"other".to_string()), None);
    assert_eq!(u.user_index(), 1);
    assert!(u.username_taken(&"alice".to_string()));
    assert!(!u.username_taken(&"bob".to_string()));
}

#[test]
fn signin_checks_password() {
    let mut u = UserStore::new();
    u.signup(&"alice".to_string(), &"pw".to_string());
    u.signup(&"bob".to_string(), &"pw2".to_string());
    assert_eq!(u.signin(&"bob".to_string(), &"pw2".to_string()), Some(2));
    assert_eq!(u.signin(&"bob".to_string(), &"pw".to_string()), None);
    assert_eq!(u.signin(&"carol".to_string(), &"pw".to_string()), None);
}

#[test]
fn reset_forgets_users() {
    let mut u = UserStore::new();
    u.signup(&"alice".to_string(), &"pw".to_string());
    u.reset();
    assert_eq!(u.signin(&"alice".to_string(), &"pw".to_string()), None);
    assert_eq!(u.signup(&"alice".to_string(), &"pw".to_string()), Some(1));
}
