use hashids::config::{guards_wanted, separators_wanted};
use hashids::{
    get_non_duplicated_string, get_unique_alphabet, hash, hashids_shuffle, unhash, Error,
    HashidBuilder, HashidCodec, HashidSalt,
};

const ALPHABET: &str = "abcdefghijklmnopqrstuvwxyzABCDEFGHIJKLMNOPQRSTUVWXYZ1234567890";

fn codec(salt: &str) -> HashidCodec {
    HashidBuilder::new().with_salt(salt).ok().unwrap()
}

fn codec_of(salt: &str, alphabet: &str, length: usize) -> HashidCodec {
    HashidBuilder::new()
        .with_salt(salt)
        .with_alphabet(alphabet.to_string())
        .with_length(length)
        .ok()
        .unwrap()
}

fn sorted(text: &str) -> Vec<char> {
    let mut letters: Vec<char> = text.chars().collect();
    letters.sort();
    letters
}

#[test]
fn round_trip_of_single_numbers() {
    let ids = codec("this is my salt");
    for n in 0..2000usize {
        let hash = ids.encode_vec(&vec![n]);
        assert_eq!(ids.decode(hash), Ok(vec![n]));
    }
}

#[test]
fn round_trip_of_sequences() {
    let ids = codec("this is my salt");
    for a in 0..40usize {
        for b in 0..40usize {
            let numbers = vec![a, b * 1000, a + b, 0];
            let hash = ids.encode_vec(&numbers);
            assert_eq!(ids.decode(hash), Ok(numbers));
        }
    }
}

#[test]
fn round_trip_under_every_least_length() {
    for length in 0..130usize {
        let ids = HashidBuilder::new()
            .with_salt("this is my salt")
            .with_length(length)
            .ok()
            .unwrap();
        let numbers = vec![length, 12345, 7];
        let hash = ids.encode_vec(&numbers);
        assert!(hash.chars().count() >= length);
        assert_eq!(ids.decode(hash), Ok(numbers));
    }
}

#[test]
fn round_trip_of_the_largest_numbers() {
    let ids = codec("this is my salt");
    assert_eq!(ids.encode_vec(&vec![9223372036854775807]), "jvNx4BjM5KYjv");
    assert_eq!(
        ids.decode("jvNx4BjM5KYjv".to_string()),
        Ok(vec![9223372036854775807])
    );
    let hash = ids.encode_vec(&vec![usize::MAX, usize::MAX]);
    assert_eq!(ids.decode(hash), Ok(vec![usize::MAX, usize::MAX]));
}

#[test]
fn round_trip_where_the_pools_hold_what_a_pattern_gives_meaning_to() {
    let ids = codec_of("this is my salt", "abdegjklmnopqrvwxyz^]-\\[&~#.$*+?(){}|", 10);
    assert_eq!(ids.encode_vec(&vec![1, 22, 333]), "r(-ob[d?{)");
    assert_eq!(ids.decode("r(-ob[d?{)".to_string()), Ok(vec![1, 22, 333]));
    let ids = codec_of("this is my salt", "^]-\\[&~#.$*+?(){}|abdegjklmnopqrvwxyz", 12);
    assert_eq!(ids.encode_vec(&vec![98765]), "}+(n}*|qxv?)");
    assert_eq!(ids.decode("}+(n}*|qxv?)".to_string()), Ok(vec![98765]));
    for n in 0..500usize {
        let numbers = vec![n, 2 * n, 3];
        let hash = ids.encode_vec(&numbers);
        assert_eq!(ids.decode(hash), Ok(numbers));
    }
}

#[test]
fn a_blank_in_the_alphabet_breaks_the_round_trip() {
    let ids = codec_of("this is my salt", "abcdefghijklmnop qrstuvwxyz", 4);
    assert_eq!(ids.encode_vec(&vec![4]), "m vm");
    assert_eq!(ids.decode("m vm".to_string()), Err(Error::InvalidHash));
}

#[test]
fn equal_numbers_give_equal_strings() {
    let one = codec("this is my salt");
    let other = codec("this is my salt");
    for n in 0..300usize {
        let numbers = vec![n, n + 1];
        assert_eq!(one.encode_vec(&numbers), one.encode_vec(&numbers));
        assert_eq!(one.encode_vec(&numbers), other.encode_vec(&numbers));
    }
}

#[test]
fn a_string_of_another_salt_is_refused_unless_it_is_valid_here_too() {
    let ids = codec("this is my salt");
    let others = codec("this is my pepper");
    for n in 0..300usize {
        let hash = ids.encode_vec(&vec![n]);
        match others.decode(hash.clone()) {
            Ok(numbers) => assert_eq!(others.encode_vec(&numbers), hash),
            Err(e) => assert_eq!(e, Error::InvalidHash),
        }
    }
    let hash = codec("a").encode_vec(&vec![242]);
    assert_eq!(hash, "vwDZ");
    assert_eq!(codec("b").decode(hash), Ok(vec![40338]));
    assert_eq!(codec("b").encode_vec(&vec![40338]), "vwDZ");
}

#[test]
fn what_decoding_accepts_encoding_gives_back() {
    let ids = codec("this is my salt");
    for text in ["NkK9", "NkK", "NkK9a", "0NkK9", "aBMswoO2UB3Sj", "A", "AAAA", "N", "5", "UU"] {
        match ids.decode(text.to_string()) {
            Ok(numbers) => assert_eq!(ids.encode_vec(&numbers), text),
            Err(e) => assert_eq!(e, Error::InvalidHash),
        }
    }
}

#[test]
fn no_string_is_shorter_than_the_least_length() {
    assert_eq!(HashidBuilder::new().with_salt("this is my salt").with_length(0).ok().unwrap().encode_vec(&vec![1]), "NV");
    let expected = [
        (3usize, "0NV", 1usize),
        (5, "0NkK9", 12345),
        (6, "0NkK9A", 12345),
        (7, "B0NkK9A", 12345),
        (50, "LRo7kYz8mjyQ3p9aJEDngB0NkK9A5ev1WwPNxZq64KV2OrMXbl", 12345),
        (51, "bLRo7kYz8mjyQ3p9aJEDngB0NkK9A5ev1WwPNxZq64KV2OrMXbl", 12345),
        (
            100,
            "9aPODa269M4r5NZxnVYwjKRWbLRo7kYz8mjyQ3p9aJEDngB0NkK9A5ev1WwPNxZq64KV2OrMXblog1LEQmPvq3z7eBkXlyp8JWwn",
            12345,
        ),
    ];
    for (length, hash, n) in expected {
        let ids = HashidBuilder::new()
            .with_salt("this is my salt")
            .with_length(length)
            .ok()
            .unwrap();
        assert_eq!(ids.encode_vec(&vec![n]), hash);
        assert_eq!(hash.len(), length);
    }
}

#[test]
fn sixteen_distinct_characters_make_an_alphabet() {
    let fifteen = HashidBuilder::new()
        .with_salt("salt")
        .with_alphabet("0123456789abdeg".to_string())
        .ok();
    assert_eq!(fifteen, Err(Error::InvalidAlphabetLength));
    let repeated = HashidBuilder::new()
        .with_salt("salt")
        .with_alphabet("0123456789abdegggggg0000".to_string())
        .ok();
    assert_eq!(repeated, Err(Error::InvalidAlphabetLength));
    let without_salt = HashidBuilder::new().with_alphabet("0123456789abdeg".to_string()).ok();
    assert_eq!(without_salt, Err(Error::InvalidAlphabetLength));
    let sixteen = codec_of("salt", "0123456789abdegj", 4);
    assert_eq!(sixteen.encode_vec(&vec![1, 2, 3]), "7e192e");
    assert_eq!(sixteen.encode_vec(&vec![255]), "5e77");
    assert_eq!(sixteen.decode("7e192e".to_string()), Ok(vec![1, 2, 3]));
}

#[test]
fn separators_and_guards_by_the_number_of_letters() {
    assert_eq!(separators_wanted(0), 2);
    assert_eq!(separators_wanted(6), 2);
    assert_eq!(separators_wanted(7), 2);
    assert_eq!(separators_wanted(10), 2);
    assert_eq!(separators_wanted(11), 3);
    assert_eq!(separators_wanted(13), 3);
    assert_eq!(separators_wanted(14), 4);
    assert_eq!(separators_wanted(48), 13);
    assert_eq!(separators_wanted(usize::MAX), usize::MAX / 7 * 2 + (usize::MAX % 7) * 2 / 7);
    assert_eq!(guards_wanted(0), 0);
    assert_eq!(guards_wanted(1), 1);
    assert_eq!(guards_wanted(12), 1);
    assert_eq!(guards_wanted(13), 2);
    assert_eq!(guards_wanted(48), 4);
    assert_eq!(guards_wanted(usize::MAX), usize::MAX / 12 + 1);
}

#[test]
fn pools_of_the_default_alphabet() {
    let ids = codec("this is my salt");
    assert_eq!(ids.alphabet(), "5N6y2rljDQak4xgzn8ZR1oKYLmJpEbVq3OBv9WwXPMe7");
    assert_eq!(ids.separators(), "UHuhtcITCsFifS");
    assert_eq!(ids.guards(), "AdG0");
    assert_eq!(ids.min_hash_length(), 4);
}

#[test]
fn pools_share_no_character() {
    for alphabet in [
        ALPHABET,
        "0123456789abdegj",
        "cfhistuCFHISTUab",
        "cfhistuCFabdegjklmnopqrvwxyzABDEGJKLMNOPQRVW",
        "abdegjklmnopqrvwxyz^]-\\[&~#.$*+?(){}|",
    ] {
        let ids = codec_of("this is my salt", alphabet, 4);
        let (letters, separators, guards) = (ids.alphabet(), ids.separators(), ids.guards());
        assert!(letters.chars().count() >= 2);
        assert!(!separators.is_empty());
        assert!(!guards.is_empty());
        for c in letters.chars() {
            assert!(alphabet.contains(c));
            assert!(!separators.contains(c));
            assert!(!guards.contains(c));
            assert_eq!(letters.matches(c).count(), 1);
        }
        for c in separators.chars() {
            assert!(alphabet.contains(c));
            assert!(!guards.contains(c));
        }
    }
}

#[test]
fn pools_after_the_separators_were_brought_to_size() {
    let ids = codec_of("salt", "0123456789abdegjklmnopqr", 4);
    assert_eq!(ids.alphabet(), "lpmnb6qa7g89rkdj");
    assert_eq!(ids.separators(), "012345");
    assert_eq!(ids.guards(), "oe");
    let ids = codec_of("salt", "0123456789abdegj", 4);
    assert_eq!(ids.alphabet(), "j9de657b4g");
    assert_eq!(ids.separators(), "0123");
    assert_eq!(ids.guards(), "8a");
    let ids = codec_of(
        "this is my salt",
        "cfhistuCFabdegjklmnopqrvwxyzABDEGJKLMNOPQRVW",
        4,
    );
    assert_eq!(ids.alphabet(), "WnMEQpKeDGNrLwBJvmVzyjbogRxAPkd");
    assert_eq!(ids.separators(), "htfsuCFica");
    assert_eq!(ids.guards(), "lOq");
    let ids = codec_of("this is my salt", "cabdegjklmnopqrv", 4);
    assert_eq!(ids.alphabet(), "qjrpklnemg");
    assert_eq!(ids.separators(), "cabd");
    assert_eq!(ids.guards(), "vo");
    assert_eq!(ids.encode_vec(&vec![1, 2, 3]), "nmagbm");
    let ids = codec_of("this is my salt", "cfhistuCFHISTUab", 9);
    assert_eq!(ids.alphabet(), "ba");
    assert_eq!(ids.separators(), "HuhtcITCsFifS");
    assert_eq!(ids.guards(), "U");
    assert_eq!(ids.min_hash_length(), 9);
}

#[test]
fn separators_are_taken_from_the_alphabet_where_they_are_missing() {
    let ids = codec_of("salt", "0123456789abdegjklmnopqr", 4);
    assert_eq!(ids.encode_vec(&vec![1, 2, 3]), "qa1927");
    assert_eq!(ids.decode("qa1927".to_string()), Ok(vec![1, 2, 3]));
}

#[test]
fn separators_grow_where_the_alphabet_is_over_three_and_a_half_times_as_long() {
    let ids = codec_of(
        "this is my salt",
        "cfhistuCFabdegjklmnopqrvwxyzABDEGJKLMNOPQRVW",
        4,
    );
    assert_eq!(ids.encode_vec(&vec![1, 2, 3]), "Krtbfz");
    assert_eq!(ids.encode_vec(&vec![12345]), "BjnR");
    assert_eq!(ids.decode("Krtbfz".to_string()), Ok(vec![1, 2, 3]));
}

#[test]
fn guards_are_taken_from_the_separators_of_a_short_alphabet() {
    let ids = codec_of("this is my salt", "cfhistuCFHISTUab", 4);
    assert_eq!(ids.encode_vec(&vec![5]), "abab");
    assert_eq!(ids.decode("abab".to_string()), Ok(vec![5]));
    let ids = codec_of("this is my salt", "cfhistuCFHISTUab", 0);
    assert_eq!(ids.encode_vec(&vec![5, 6, 7]), "bbabIaabTbbb");
    assert_eq!(ids.decode("bbabIaabTbbb".to_string()), Ok(vec![5, 6, 7]));
}

#[test]
fn repeated_characters_of_an_alphabet_count_once() {
    let ids = codec_of("this is my salt", "aabbccddeeffgghhiijjkkllmmnnooppqq", 4);
    let same = codec_of("this is my salt", "abcdefghijklmnopq", 4);
    assert_eq!(ids, same);
    assert_eq!(ids.encode_vec(&vec![1234]), "lqee");
}

#[test]
fn a_first_digit_without_number_leaves_the_number_as_it_is() {
    let ids = codec_of("this is my salt", "\0abcdefghijklmnopqrstuvwxyz", 4);
    assert_eq!(ids.encode_vec(&vec![9, 1]), "v\0ie");
    assert_eq!(ids.decode("v\0ie".to_string()), Ok(vec![9, 1]));
}

#[test]
fn zero_is_encoded() {
    let ids = codec("this is my salt");
    assert_eq!(ids.encode(0u32), Ok("d5xA".to_string()));
    assert_eq!(ids.encode(0u64), Ok("d5xA".to_string()));
    assert_eq!(ids.encode(0i32), Ok("d5xA".to_string()));
    assert_eq!(ids.encode(0i64), Ok("d5xA".to_string()));
    assert_eq!(ids.decode("d5xA".to_string()), Ok(vec![0]));
}

#[test]
fn numbers_out_of_range_are_refused() {
    let ids = codec("this is my salt");
    assert_eq!(ids.encode(-1i32), Err(Error::InvalidInputId));
    assert_eq!(ids.encode(i32::MIN), Err(Error::InvalidInputId));
    assert_eq!(ids.encode(-1i64), Err(Error::InvalidInputId));
    assert_eq!(ids.encode(i64::MIN), Err(Error::InvalidInputId));
    assert_eq!(ids.encode(9007199254740993i64), Err(Error::InvalidInputId));
    assert_eq!(ids.encode(i64::MAX), Err(Error::InvalidInputId));
    assert_eq!(ids.encode(9007199254740993u64), Err(Error::InvalidInputId));
    assert_eq!(ids.encode(9223372036854775806u64), Err(Error::InvalidInputId));
    assert_eq!(ids.encode(9223372036854775807u64), Err(Error::InvalidInputId));
    assert_eq!(ids.encode(u64::MAX), Err(Error::InvalidInputId));
}

#[test]
fn numbers_up_to_the_largest_are_encoded() {
    let ids = codec("this is my salt");
    assert_eq!(ids.encode(9007199254740992u64), Ok("262mm1m4J9Z".to_string()));
    assert_eq!(ids.encode(9007199254740992i64), Ok("262mm1m4J9Z".to_string()));
    assert_eq!(ids.encode(9007199254740991u64), Ok("yy5rrkrgDjr".to_string()));
    assert_eq!(ids.encode(9007199254740991i64), Ok("yy5rrkrgDjr".to_string()));
    assert_eq!(ids.decode("262mm1m4J9Z".to_string()), Ok(vec![9007199254740992]));
    assert_eq!(ids.decode("yy5rrkrgDjr".to_string()), Ok(vec![9007199254740991]));
    assert_eq!(ids.encode(u32::MAX).map(|h| ids.decode(h)), Ok(Ok(vec![4294967295])));
    assert_eq!(ids.encode(i32::MAX).map(|h| ids.decode(h)), Ok(Ok(vec![2147483647])));
    assert_eq!(ids.encode(5i64), Ok("0rDd".to_string()));
}

#[test]
fn a_salt_decides_what_comes_out() {
    let ids = codec("organic salt");
    assert_eq!(ids.encode(12345), Ok("PWbG".to_string()));
    assert_eq!(ids.decode("PWbG".to_string()), Ok(vec![12345]));
}

#[test]
fn settings_are_judged_alphabet_first() {
    assert_eq!(HashidBuilder::new().ok(), Err(Error::MissingSalt));
    assert_eq!(HashidBuilder::new().with_salt("").ok(), Err(Error::MissingSalt));
    assert_eq!(
        HashidBuilder::new().with_salt("s\u{e9}l").ok(),
        Err(Error::NonAsciiSalt)
    );
    assert_eq!(
        HashidBuilder::new()
            .with_salt("salt")
            .with_alphabet("abcdefghijklmnopqrstuvwxy\u{e9}".to_string())
            .ok(),
        Err(Error::NonAsciiAlphabet)
    );
    assert_eq!(
        HashidBuilder::new()
            .with_salt("\u{6f22}\u{5b57}")
            .with_alphabet("\u{3042}\u{3044}\u{3046}".to_string())
            .ok(),
        Err(Error::NonAsciiAlphabet)
    );
    assert_eq!(
        HashidBuilder::new()
            .with_salt("s\u{e9}l")
            .with_alphabet("abc".to_string())
            .ok(),
        Err(Error::InvalidAlphabetLength)
    );
    assert!(!HashidBuilder::new().has_salt());
    assert!(HashidBuilder::new().with_salt("x").has_salt());
}

#[test]
fn the_last_setting_counts() {
    let ids = HashidBuilder::new()
        .with_salt("first")
        .with_length(20)
        .with_alphabet("0123456789abdegj".to_string())
        .with_hashid_salt(HashidSalt::from("this is my salt".to_string()))
        .with_alphabet(ALPHABET.to_string())
        .with_length(4)
        .ok()
        .unwrap();
    assert_eq!(ids, codec("this is my salt"));
    assert_eq!(ids.encode(12345), Ok("NkK9".to_string()));
}

#[test]
fn shuffling_rearranges() {
    let salt = HashidSalt::from("this is my salt");
    for text in ["anything really goes", "ab", "a", "aaaabbbb", "x y z", ALPHABET] {
        let shuffled = hashids_shuffle(text.to_string(), &salt).unwrap();
        assert_eq!(shuffled.chars().count(), text.chars().count());
        assert_eq!(sorted(&shuffled), sorted(text));
    }
    assert_eq!(
        hashids_shuffle("abcdefghijklmnopqrstuvwxyz".to_string(), &HashidSalt::from("z")),
        Ok("bldiczpkmvwryxejunahosqfgt".to_string())
    );
    assert_eq!(
        hashids_shuffle("ab".to_string(), &HashidSalt::from("x")),
        Ok("ba".to_string())
    );
    assert_eq!(
        hashids_shuffle("a".to_string(), &HashidSalt::from("x")),
        Ok("a".to_string())
    );
}

#[test]
fn shuffling_needs_a_salt_and_something_to_shuffle() {
    assert_eq!(
        hashids_shuffle("abc".to_string(), &HashidSalt::from("")),
        Err(Error::MissingSalt)
    );
    assert_eq!(
        hashids_shuffle("".to_string(), &HashidSalt::from("")),
        Err(Error::MissingSalt)
    );
    assert_eq!(
        hashids_shuffle("".to_string(), &HashidSalt::from("salt")),
        Err(Error::InvalidAlphabetLength)
    );
}

#[test]
fn numerals_are_read_as_they_are_written() {
    assert_eq!(unhash("ie".to_string(), &ALPHABET.to_string()), 500);
    assert_eq!(unhash("nRhrdB".to_string(), &ALPHABET.to_string()), 12546843121);
    assert_eq!(unhash("a".to_string(), &ALPHABET.to_string()), 0);
    assert_eq!(unhash("".to_string(), &ALPHABET.to_string()), 0);
    for n in [0usize, 1, 61, 62, 63, 3843, 3844, 1 << 40, usize::MAX] {
        assert_eq!(unhash(hash(n, ALPHABET), &ALPHABET.to_string()), n);
    }
    assert_eq!(hash(5, "01"), "101");
    assert_eq!(hash(0, "x"), "x");
}

#[test]
fn a_character_that_the_alphabet_lacks_counts_as_nothing() {
    assert_eq!(unhash("i?e".to_string(), &ALPHABET.to_string()), 30756);
    assert_eq!(unhash("?".to_string(), &ALPHABET.to_string()), 0);
}

#[test]
fn of_repeated_characters_the_first_stays() {
    assert_eq!(get_unique_alphabet("aabbc".to_string()), "abc");
    assert_eq!(get_unique_alphabet("abcabc".to_string()), "abc");
    assert_eq!(get_unique_alphabet("cbacba".to_string()), "cba");
    assert_eq!(get_unique_alphabet("".to_string()), "");
}

#[test]
fn separators_and_alphabet_part() {
    let (separators, alphabet) =
        get_non_duplicated_string("cfhistuCFHISTU".to_string(), ALPHABET.to_string());
    assert_eq!(separators, "cfhistuCFHISTU");
    assert_eq!(alphabet, "abdegjklmnopqrvwxyzABDEGJKLMNOPQRVWXYZ1234567890");
    let (separators, alphabet) =
        get_non_duplicated_string("cfhistuCFHISTU".to_string(), "UtahCity".to_string());
    assert_eq!(separators, "hitCU");
    assert_eq!(alphabet, "ay");
}
