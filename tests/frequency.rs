use alc::error::AlcError;
use alc::frequency::{SingleGramFrequencies, TopFrequenciesToTake::{All, Num}};
use alc::keycode::Keycode::{_A, _B, _C, _D, _E, _H, _SPC, _T};
use alc::keycode::KeycodeOptions;
use alc::ngram::Ngram;

#[test]
fn test_frequency_holder_construction() {
    let ngram = Ngram::new(vec![_A, _B]);
    let mut freq_holder = SingleGramFrequencies::<u32>::new(2);
    freq_holder.add_from_key_value(ngram.clone(), 1).unwrap();
    assert_eq!(freq_holder.get(&ngram).unwrap(), 1);
    freq_holder.add_from_key_value(ngram.clone(), 1).unwrap();
    assert_eq!(freq_holder.get(&ngram).unwrap(), 2);

    freq_holder.add_from_key_value(ngram.clone(), 5).unwrap();
    assert_eq!(freq_holder.get(&ngram).unwrap(), 7);
    freq_holder.add_from_key_value(Ngram::new(vec![_C, _D]), 3).unwrap();
    assert_eq!(freq_holder.get(&Ngram::new(vec![_C, _D])).unwrap(), 3);

    assert_eq!(freq_holder.total, 10);

    let mut freq_holder2 = SingleGramFrequencies::<u32>::new(2);
    freq_holder2.add_from_key_value(Ngram::new(vec![_A, _E]), 2).unwrap();
    freq_holder2.add_from_key_value(Ngram::new(vec![_C, _D]), 3).unwrap();

    assert_eq!(freq_holder2.total, 5);

    freq_holder.combine_with(freq_holder2).unwrap();
    assert_eq!(freq_holder.get(&Ngram::new(vec![_A, _B])).unwrap(), 7);
    assert_eq!(freq_holder.get(&Ngram::new(vec![_C, _D])).unwrap(), 6);
    assert_eq!(freq_holder.get(&Ngram::new(vec![_A, _E])).unwrap(), 2);

    assert_eq!(freq_holder.total, 15);
}

#[test]
fn test_frequency_holder_ab() {
    let h = SingleGramFrequencies::try_from_string("ab", 2, &KeycodeOptions::default()).unwrap().unwrap();
    assert_eq!(h.get(&Ngram::new(vec![_A, _B])), Some(1));
    assert_eq!(h.len(), 1);
    assert_eq!(h.n(), 2);
    assert_eq!(h.total, 1);
}

#[test]
fn test_frequency_holder_abab() {
    let ngram = Ngram::new(vec![_A, _B]);
    let holder2 = SingleGramFrequencies::<u32>::try_from_string("abab", 2, &KeycodeOptions::default()).unwrap().unwrap();
    assert_eq!(holder2.get(&ngram).unwrap(), 2);
    assert_eq!(holder2.get(&Ngram::new(vec![_B, _A])).unwrap(), 1);
    let holder4 = SingleGramFrequencies::<u32>::try_from_string("abab", 4, &KeycodeOptions::default()).unwrap().unwrap();
    assert_eq!(holder4.get(&Ngram::new(vec![_A, _B, _A, _B])).unwrap(), 1)
}

#[test]
fn short_text_gives_none_and_wrong_length_fails() {
    assert_eq!(SingleGramFrequencies::<u32>::try_from_string("ab", 3, &KeycodeOptions::default()).unwrap(), None);
    let mut h = SingleGramFrequencies::<u32>::new(2);
    assert_eq!(h.add_from_key_value(Ngram::new(vec![_A]), 1), Err(AlcError::NgramMatchError(1, 2)));
    assert!(h.is_empty());
    let other = SingleGramFrequencies::<u32>::new(3);
    assert!(h.combine_with(other).is_err());
}

#[test]
fn take_top_keeps_the_most_frequent() {
    let mut h = SingleGramFrequencies::<u32>::try_from_string("Hello there, the theme", 2, &KeycodeOptions::default()).unwrap().unwrap();
    let all = h.clone();
    h.take_top_frequencies(All);
    assert_eq!(h, all);
    h.take_top_frequencies(Num(2));
    assert_eq!(h.len(), 2);
    // "he" occurs four times; "th" and " t" three times each, and either may stay
    assert_eq!(h.get(&Ngram::new(vec![_H, _E])), Some(4));
    let th = h.get(&Ngram::new(vec![_T, _H]));
    let space_t = h.get(&Ngram::new(vec![_SPC, _T]));
    assert!(th == Some(3) || space_t == Some(3));
    assert!(th.is_none() || space_t.is_none());
    assert_eq!(h.total, 7);
    assert_eq!(h.sum(), 7);
    h.take_top_frequencies(Num(10));
    assert_eq!(h.len(), 2);
}
