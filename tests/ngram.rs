use alc::keycode::Keycode::{_A, _B, _SFT};
use alc::ngram::Ngram;

#[test]
fn length_test() {
    let ngram = Ngram::new(vec![_SFT, _A, _B]);
    assert_eq!(ngram.len(), 3);
}

#[test]
fn ngram_comparison() {
    let a = Ngram::new(vec![_A, _B]);
    assert!(a.same_as(&Ngram::new(vec![_A, _B])));
    assert!(!a.same_as(&Ngram::new(vec![_B, _A])));
    assert!(!a.same_as(&Ngram::new(vec![_A])));
    assert_eq!(a.get(1), _B);
}
