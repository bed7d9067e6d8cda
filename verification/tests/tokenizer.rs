use thoth::basic_tokenizer::BasicTokenizer;
use thoth::model::{ConfigError, DecodeError};

fn trained(corpus: &str, vocab_size: usize) -> BasicTokenizer {
    let mut tokenizer = BasicTokenizer::new();
    assert_eq!(tokenizer.train(corpus, vocab_size), Ok(()));
    tokenizer
}

#[test]
fn scenario_aaab() {
    let tokenizer = trained("aaab", 257);
    assert_eq!(tokenizer.merges(), vec![((97, 97), 256)]);
    assert_eq!(tokenizer.expansion(256), Some(vec![97u8, 97]));
    assert_eq!(tokenizer.encoder("aaab"), vec![256, 97, 98]);
    assert_eq!(tokenizer.decoder(vec![256, 97, 98]), Ok("aaab".to_string()));
}

#[test]
fn empty_corpus_trains_base_symbols_only() {
    let tokenizer = trained("", 300);
    assert_eq!(tokenizer.merges(), vec![]);
    assert_eq!(tokenizer.expansion(0), Some(vec![0u8]));
    assert_eq!(tokenizer.expansion(255), Some(vec![255u8]));
    assert_eq!(tokenizer.expansion(256), None);
    assert_eq!(tokenizer.encoder("abc"), vec![97, 98, 99]);
}

#[test]
fn vocab_size_256_mints_nothing() {
    let tokenizer = trained("aaaa bbbb aaaa", 256);
    assert_eq!(tokenizer.merges(), vec![]);
    assert_eq!(tokenizer.expansion(256), None);
}

#[test]
fn vocab_size_255_is_refused() {
    let mut tokenizer = BasicTokenizer::new();
    assert_eq!(tokenizer.train("abc", 255), Err(ConfigError { vocab_size: 255 }));
    assert_eq!(tokenizer.train("abc", 0), Err(ConfigError { vocab_size: 0 }));
}

#[test]
fn refused_training_keeps_the_model() {
    let mut tokenizer = trained("aaab", 257);
    assert_eq!(tokenizer.train("zzzz", 10), Err(ConfigError { vocab_size: 10 }));
    assert_eq!(tokenizer.merges(), vec![((97, 97), 256)]);
    assert_eq!(tokenizer.encoder("aaab"), vec![256, 97, 98]);
}

#[test]
fn retraining_replaces_the_model() {
    let mut tokenizer = trained("aaab", 257);
    assert_eq!(tokenizer.train("bbbc", 257), Ok(()));
    assert_eq!(tokenizer.merges(), vec![((98, 98), 256)]);
    assert_eq!(tokenizer.expansion(256), Some(vec![98u8, 98]));
}

#[test]
fn ties_go_to_the_lowest_pair() {
    let tokenizer = trained("abcd", 259);
    assert_eq!(
        tokenizer.merges(),
        vec![((97, 98), 256), ((99, 100), 257), ((256, 257), 258)]
    );
    assert_eq!(tokenizer.expansion(258), Some(vec![97u8, 98, 99, 100]));
    assert_eq!(tokenizer.encoder("abcd"), vec![258]);
}

#[test]
fn highest_count_wins_over_lower_pair() {
    let tokenizer = trained("abzzzzzz", 257);
    assert_eq!(tokenizer.merges(), vec![((122, 122), 256)]);
}

#[test]
fn training_is_deterministic() {
    let corpus = "the cat sat on the mat, the rat sat on the cat";
    let first = trained(corpus, 280);
    let second = trained(corpus, 280);
    assert_eq!(first.merges(), second.merges());
    for id in 0..290 {
        assert_eq!(first.expansion(id), second.expansion(id));
    }
    assert_eq!(first.encoder(corpus), second.encoder(corpus));
}

#[test]
fn rule_ids_increase_and_exceed_their_inputs() {
    let tokenizer = trained("abracadabra abracadabra banana bandana", 290);
    let rules = tokenizer.merges();
    assert!(!rules.is_empty());
    for (k, ((left, right), id)) in rules.iter().enumerate() {
        assert_eq!(*id, 256 + k);
        assert!(left < id);
        assert!(right < id);
        let mut joined = tokenizer.expansion(*left).unwrap();
        joined.extend(tokenizer.expansion(*right).unwrap());
        assert_eq!(tokenizer.expansion(*id), Some(joined));
    }
}

#[test]
fn collapsing_corpus_stops_early() {
    let tokenizer = trained("aaaa", 300);
    assert_eq!(tokenizer.merges(), vec![((97, 97), 256), ((256, 256), 257)]);
    assert_eq!(tokenizer.expansion(257), Some(vec![97u8, 97, 97, 97]));
    assert_eq!(tokenizer.expansion(258), None);
    assert_eq!(tokenizer.encoder("aaaa"), vec![257]);
}

#[test]
fn rule_count_stays_within_the_limit() {
    let corpus = "a long enough corpus with plenty of pairs to merge, again and again and again";
    let tokenizer = trained(corpus, 260);
    assert_eq!(tokenizer.merges().len(), 4);
    assert_eq!(tokenizer.expansion(260), None);
}

#[test]
fn round_trip_on_the_corpus() {
    let corpus = "hello hello hello world, hello world";
    let tokenizer = trained(corpus, 270);
    let ids = tokenizer.encoder(corpus);
    assert!(ids.len() < corpus.len());
    assert_eq!(tokenizer.decoder(ids), Ok(corpus.to_string()));
}

#[test]
fn round_trip_on_other_text() {
    let tokenizer = trained("hello hello hello world, hello world", 270);
    for text in ["h", "world hello", "héllo wörld", "日本語 😀 text", "\u{0}\n\t"] {
        let ids = tokenizer.encoder(text);
        assert_eq!(tokenizer.decoder(ids), Ok(text.to_string()));
    }
}

#[test]
fn encoder_follows_rule_order_not_frequency() {
    let tokenizer = trained("abababcdcd", 258);
    assert_eq!(tokenizer.merges(), vec![((97, 98), 256), ((99, 100), 257)]);
    assert_eq!(tokenizer.encoder("cdcdcdab"), vec![257, 257, 257, 256]);
    assert_eq!(tokenizer.encoder("cdcdcd"), vec![257, 257, 257]);
}

#[test]
fn encoder_on_empty_text() {
    let tokenizer = trained("aaab", 257);
    assert_eq!(tokenizer.encoder(""), Vec::<usize>::new());
}

#[test]
fn untrained_tokenizer() {
    let tokenizer = BasicTokenizer::new();
    assert_eq!(tokenizer.merges(), vec![]);
    assert_eq!(tokenizer.expansion(97), None);
    assert_eq!(tokenizer.encoder("ab"), vec![97, 98]);
    assert_eq!(tokenizer.decoder(vec![97]), Err(DecodeError::UnknownId));
}

#[test]
fn decoder_errors() {
    let tokenizer = trained("aaab", 257);
    assert_eq!(tokenizer.decoder(vec![]), Err(DecodeError::EmptyInput));
    assert_eq!(tokenizer.decoder(vec![97, 257]), Err(DecodeError::UnknownId));
    assert_eq!(tokenizer.decoder(vec![257, 255]), Err(DecodeError::UnknownId));
    assert_eq!(tokenizer.decoder(vec![255]), Err(DecodeError::InvalidEncoding));
    assert_eq!(tokenizer.decoder(vec![0xe6, 0x97]), Err(DecodeError::InvalidEncoding));
    assert_eq!(tokenizer.decoder(vec![0xe6, 0x97, 0xa5]), Ok("日".to_string()));
}
