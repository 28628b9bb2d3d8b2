use wordtwist::words::{
    count_chars, dictionary_is_lower, filter_words_by_character, find_n_length_words,
    get_all_n_length_words, get_random_n_length_word, get_random_word, read_words,
};

fn dict(words: &[&str]) -> Vec<String> {
    words.iter().map(|w| w.to_string()).collect()
}

fn sample_dictionary() -> Vec<String> {
    dict(&[
        "bar",
        "baz",
        "boss",
        "foo",
        "qux",
        "sob",
        "abracadabra",
        "abbreviation",
        "accommodation",
        "disproportionate",
    ])
}

#[test]
fn find_lengthed_words() {
    let words = sample_dictionary();
    let twelve_length_words = get_all_n_length_words(&words, 12);
    for _word in twelve_length_words.iter() {
        // println!("{}", word)
    }
    let fifteen_length_words = get_all_n_length_words(&words, 15);
    for _word in fifteen_length_words.iter() {
        // println!("{}", word)
    }
}

#[test]
fn words_find_lengthed_words() {
    let words = sample_dictionary();
    let twelve_length_words = get_all_n_length_words(&words, 12);
    for _word in twelve_length_words.iter() {
        // println!("{}", word)
    }
    let fifteen_length_words = get_all_n_length_words(&words, 15);
    for _word in fifteen_length_words.iter() {
        // println!("{}", word)
    }
}

#[test]
fn words_get_random_n_length_word() {
    let words = sample_dictionary();
    let twelve_length_words = get_all_n_length_words(&words, 12);
    let random_twelve_length_word = get_random_word(&twelve_length_words);

    assert_eq!(random_twelve_length_word.unwrap().chars().count(), 12);
}

#[test]
fn test_count_chars() {
    let input = "boot";
    let output = count_chars(input);
    assert_eq!(output[1], 1); // b
    assert_eq!(output[14], 2); // o
    assert_eq!(output[0], 0);
}

#[test]
fn test_filter_words_by_character() {
    let words = filter_words_by_character(&sample_dictionary(), "bos");
    println!("{:?}", words);
    assert!(words.contains(&"sob".to_string()));
    assert!(!words.contains(&"boss".to_string()));
}

#[test]
fn find_length_12_words() {
    let text = "bar\nabracadabra\nabbreviation\naccommodation\n";
    let words = find_n_length_words(text, 12);
    for word in &words {
        println!("{}", word)
    }
    assert_eq!(words, vec!["abbreviation".to_string()]);
}

#[test]
fn filter_respects_repeated_letters() {
    let words = filter_words_by_character(&dict(&["bob", "bo", "ob"]), "bo");
    assert_eq!(words, vec!["bo".to_string(), "ob".to_string()]);
}

#[test]
fn all_n_length_words_keeps_order() {
    let words = dict(&["aa", "b", "cc", "ddd", "ee"]);
    assert_eq!(
        get_all_n_length_words(&words, 2),
        vec!["aa".to_string(), "cc".to_string(), "ee".to_string()]
    );
    assert_eq!(get_all_n_length_words(&words, 4), Vec::<String>::new());
}

#[test]
fn random_word_of_missing_length_is_none() {
    let words = sample_dictionary();
    assert_eq!(get_random_n_length_word(&words, 9), None);
    let three = get_random_n_length_word(&words, 3).unwrap();
    assert_eq!(three.chars().count(), 3);
    assert!(words.contains(&three));
}

#[test]
fn random_word_from_empty_list_is_none() {
    assert!(get_random_word(&Vec::new()).is_none());
}

#[test]
fn read_words_lowercases_lines() {
    let parsed = read_words("Foo\nBAR\nbaz");
    assert_eq!(
        parsed,
        vec!["foo".to_string(), "bar".to_string(), "baz".to_string()]
    );
}

#[test]
fn read_words_edge_cases() {
    assert_eq!(read_words(""), Vec::<String>::new());
    assert_eq!(read_words("a\n"), vec!["a".to_string()]);
    assert_eq!(
        read_words("a\n\nb"),
        vec!["a".to_string(), "".to_string(), "b".to_string()]
    );
}

#[test]
fn dictionary_cleanliness() {
    assert!(dictionary_is_lower(&dict(&["abc", "zz"])));
    assert!(!dictionary_is_lower(&dict(&["aBc"])));
    assert!(!dictionary_is_lower(&dict(&["ab1"])));
}
