use earlgrey::tokenizers::DelimTokenizer;

#[test]
fn test_delim_tokenizer() {
    let mut lx = DelimTokenizer::from_str("this  is a   test ", " ", true);
    let expect = vec!["this", "is", "a", "test"]
        .iter().map(|s| s.to_string()).collect::<Vec<_>>();
    for exp_token in expect.iter() {
        assert_eq!(*exp_token, lx.next().unwrap());
    }
    assert_eq!(lx.next(), None);
}
