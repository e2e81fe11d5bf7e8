use permcheck::basics::{ascii_capitalize, five, lifetime_example, plus_one};
use permcheck::documents::{add_word, get_words, new_document};
use permcheck::guessing::{parse_guess, Game, Verdict};
use permcheck::rectangles::{area, area_of_struct, area_of_tuple, Rectangle};
use permcheck::strings::{
    _first_word, add_big_strings, add_suffix, first_word, return_a_string, stringify_name_with_title,
};
use permcheck::users::{build_user, build_user_abbreviated};

#[test]
fn rectangle_areas() {
    assert_eq!(area(30, 50), 1500);
    assert_eq!(area_of_tuple((30, 50)), 1500);
    assert_eq!(area_of_struct(&Rectangle { width: 30, height: 50 }), 1500);
}

#[test]
fn five_and_plus_one() {
    assert_eq!(five(), 5);
    assert_eq!(plus_one(five()), 6);
    lifetime_example();
}

#[test]
fn owned_strings() {
    assert_eq!(return_a_string(), "Hello world");
    assert_eq!(add_suffix(String::from("Ferris")), "Ferris Jr.");
    let name = vec![String::from("Ferris"), String::from("Crab")];
    assert_eq!(stringify_name_with_title(&name), "Ferris Crab Esq.");
    assert_eq!(name.len(), 2);
    assert_eq!(stringify_name_with_title(&vec![]), "Esq.");
}

#[test]
fn big_strings_are_appended() {
    let mut dst = vec![String::from("ab"), String::from("abcd")];
    let src = vec![String::from("xyz"), String::from("hello"), String::from("world!"), String::from("abcd")];
    add_big_strings(&mut dst, &src);
    assert_eq!(dst, vec!["ab", "abcd", "hello", "world!"]);
}

#[test]
fn first_words() {
    let s = String::from("Roddy Macintyre");
    assert_eq!(first_word(&s), 5);
    assert_eq!(_first_word(&s), "Roddy");
    let one = String::from("single");
    assert_eq!(first_word(&one), 6);
    assert_eq!(_first_word(&one), "single");
    assert_eq!(first_word(&String::new()), 0);
    let accented = String::from("héllo wörld");
    assert_eq!(first_word(&accented), 6);
    assert_eq!(_first_word(&accented), "héllo");
}

#[test]
fn documents_share_and_copy_words() {
    let d = new_document(vec!["hello".to_string()]);
    let words_copy = get_words(&d).to_vec();
    let mut d2 = new_document(words_copy);
    add_word(&mut d2, "world".to_string());
    assert!(!get_words(&d).contains(&"world".into()));
    assert_eq!(get_words(&d2), &["hello".to_string(), "world".to_string()][..]);
}

#[test]
fn users_are_built_active() {
    let u = build_user(String::from("a@b.c"), String::from("someone"));
    assert!(u.active);
    assert_eq!(u.email, "a@b.c");
    assert_eq!(u.username, "someone");
    assert_eq!(u.sign_in_count, 1);
    let v = build_user_abbreviated(String::from("x@y.z"), String::from("other"));
    assert_eq!((v.email.as_str(), v.username.as_str(), v.sign_in_count, v.active), ("x@y.z", "other", 1, true));
}

#[test]
fn guesses_are_judged() {
    let g = Game::with_secret(42);
    assert_eq!(g.check(10), Verdict::TooSmall);
    assert_eq!(g.check(99), Verdict::TooBig);
    assert_eq!(g.check(42), Verdict::Win);
    for _ in 0..50 {
        let g = Game::new();
        let wins = (1..=100).filter(|n| g.check(*n) == Verdict::Win).count();
        assert_eq!(wins, 1);
        assert_eq!(g.check(0), Verdict::TooSmall);
        assert_eq!(g.check(101), Verdict::TooBig);
    }
}

#[test]
fn typed_guesses_are_parsed() {
    assert_eq!(parse_guess("42\n"), Some(42));
    assert_eq!(parse_guess("  7 \r\n"), Some(7));
    assert_eq!(parse_guess("+15"), Some(15));
    assert_eq!(parse_guess("4294967295"), Some(u32::MAX));
    assert_eq!(parse_guess("4294967296"), None);
    assert_eq!(parse_guess("99999999999x"), None);
    assert_eq!(parse_guess("12a"), None);
    assert_eq!(parse_guess("-3"), None);
    assert_eq!(parse_guess("+"), None);
    assert_eq!(parse_guess("   "), None);
    assert_eq!(parse_guess(""), None);
    assert_eq!(parse_guess("1 2"), None);
}

#[test]
fn first_letter_is_capitalized_once() {
    let mut v = vec!['h', 'e', 'y'];
    assert!(ascii_capitalize(&mut v));
    assert_eq!(v, vec!['H', 'e', 'y']);
    assert!(!ascii_capitalize(&mut v));
    assert_eq!(v, vec!['H', 'e', 'y']);
    let mut w = vec!['é', 'a'];
    assert!(!ascii_capitalize(&mut w));
    assert_eq!(w, vec!['é', 'a']);
}
