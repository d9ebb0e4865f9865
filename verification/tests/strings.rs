use rand::SeedableRng;
use rand_xoshiro::Xoshiro256Plus;
use tectonic::strings::{
    hot_range_keys, join_segments, pick_hot_key, random_char, random_numeric, random_string,
    resolve_character_set, CharacterSet,
};

#[test]
fn character_set_defaults_to_alphanumeric() {
    assert_eq!(CharacterSet::default(), CharacterSet::Alphanumeric);
}

#[test]
fn own_character_set_wins_over_inherited() {
    assert_eq!(
        resolve_character_set(Some(CharacterSet::Numeric), Some(CharacterSet::Alphabetic)),
        CharacterSet::Numeric
    );
    assert_eq!(
        resolve_character_set(None, Some(CharacterSet::Alphabetic)),
        CharacterSet::Alphabetic
    );
    assert_eq!(resolve_character_set(None, None), CharacterSet::Alphanumeric);
}

#[test]
fn random_strings_have_the_length_and_characters_asked_for() {
    let mut rng = Xoshiro256Plus::seed_from_u64(11);
    let s = random_string(&mut rng, CharacterSet::Numeric, 50);
    assert_eq!(s.len(), 50);
    assert!(s.iter().all(|c| c.is_ascii_digit()));
    let s = random_string(&mut rng, CharacterSet::Alphabetic, 40);
    assert_eq!(s.len(), 40);
    assert!(s.iter().all(|c| c.is_ascii_alphabetic()));
    let s = random_string(&mut rng, CharacterSet::Alphanumeric, 30);
    assert_eq!(s.len(), 30);
    assert!(s.iter().all(|c| c.is_ascii_alphanumeric()));
    assert!(random_string(&mut rng, CharacterSet::Alphanumeric, 0).is_empty());
}

#[test]
fn random_numeric_gives_digits() {
    let mut rng = Xoshiro256Plus::seed_from_u64(12);
    let mut seen = [false; 10];
    for _ in 0..500 {
        let c = random_numeric(&mut rng);
        assert!(c.is_ascii_digit());
        seen[(c - b'0') as usize] = true;
    }
    assert!(seen.iter().all(|s| *s));
}

#[test]
fn random_char_stays_in_its_set() {
    let mut rng = Xoshiro256Plus::seed_from_u64(13);
    for _ in 0..100 {
        assert!(random_char(&mut rng, CharacterSet::Alphabetic).is_ascii_alphabetic());
        assert!(random_char(&mut rng, CharacterSet::Numeric).is_ascii_digit());
    }
}

#[test]
fn hot_range_keys_are_alphanumeric_of_the_length() {
    let mut rng = Xoshiro256Plus::seed_from_u64(14);
    let keys = hot_range_keys(&mut rng, 5, 8);
    assert_eq!(keys.len(), 5);
    assert!(keys.iter().all(|k| k.len() == 8 && k.iter().all(|c| c.is_ascii_alphanumeric())));
    for _ in 0..20 {
        let k = pick_hot_key(&mut rng, &keys);
        assert!(keys.contains(&k));
    }
}

#[test]
fn segments_are_joined_with_the_separator_between() {
    let parts = vec![b"ab".to_vec(), b"c".to_vec(), b"def".to_vec()];
    assert_eq!(join_segments(&parts, b"-"), b"ab-c-def".to_vec());
    assert_eq!(join_segments(&vec![b"x".to_vec()], b"--"), b"x".to_vec());
    assert_eq!(join_segments(&Vec::new(), b"-"), Vec::<u8>::new());
}
