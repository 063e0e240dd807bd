use markov_bot::freq::{
    classify_freq_arg, get_frequency_with_cache, handle_try_change_freq, parse_freq_command,
    parse_i64, set_frequency, should_reply, FreqArg, FreqError, FreqReply, FrequencyTable,
    ParseOutcome, DEFAULT_FREQUENCY,
};
use markov_bot::model::{feed_messages, generate_message, MarkovModel};
use markov_bot::sched::{cron_schedule, emission_jitter_minutes, mention_command, MentionCommand};

#[test]
fn set_frequency_validates_range() {
    let mut cache = FrequencyTable::new();
    let mut store = FrequencyTable::new();
    let channel = "channel-1".to_string();

    assert_eq!(
        set_frequency(&mut cache, &mut store, channel.clone(), -1),
        Err(FreqError::OutOfRange)
    );
    assert_eq!(
        set_frequency(&mut cache, &mut store, channel.clone(), 101),
        Err(FreqError::OutOfRange)
    );
    assert_eq!(cache.get_frequency(&channel), None);
    assert_eq!(store.get_frequency(&channel), None);

    assert_eq!(set_frequency(&mut cache, &mut store, channel.clone(), 0), Ok(()));
    assert_eq!(set_frequency(&mut cache, &mut store, channel.clone(), 50), Ok(()));
    assert_eq!(cache.get_frequency(&channel), Some(50));
    assert_eq!(store.get_frequency(&channel), Some(50));
    assert_eq!(set_frequency(&mut cache, &mut store, channel.clone(), 100), Ok(()));
    assert_eq!(cache.get_frequency(&channel), Some(100));

    assert_eq!(classify_freq_arg(&"abc".to_string()), FreqArg::NotNumeric);

    // After a successful set the cache alone answers, without a store read.
    let freq = get_frequency_with_cache(&mut cache, &store, channel.clone());
    assert_eq!(freq, 100);
}

#[test]
fn frequency_defaults_on_cache_and_store_miss() {
    let mut cache = FrequencyTable::new();
    let store = FrequencyTable::new();
    let channel = "quiet-channel".to_string();
    let freq = get_frequency_with_cache(&mut cache, &store, channel.clone());
    assert_eq!(freq, DEFAULT_FREQUENCY);
    // The default is now cached.
    assert_eq!(cache.get_frequency(&channel), Some(DEFAULT_FREQUENCY));
}

#[test]
fn gate_opens_at_full_and_stays_shut_at_zero() {
    for _ in 0..300 {
        assert!(should_reply(100));
        assert!(!should_reply(0));
    }
}

#[test]
fn classify_freq_arguments() {
    assert_eq!(classify_freq_arg(&"off".to_string()), FreqArg::SetTo(0));
    assert_eq!(classify_freq_arg(&"0".to_string()), FreqArg::SetTo(0));
    assert_eq!(classify_freq_arg(&"no".to_string()), FreqArg::SetTo(0));
    assert_eq!(classify_freq_arg(&"full".to_string()), FreqArg::SetTo(100));
    assert_eq!(classify_freq_arg(&"100".to_string()), FreqArg::SetTo(100));
    assert_eq!(classify_freq_arg(&"50".to_string()), FreqArg::SetTo(50));
    assert_eq!(classify_freq_arg(&"1".to_string()), FreqArg::SetTo(1));
    assert_eq!(classify_freq_arg(&"99".to_string()), FreqArg::SetTo(99));
    assert_eq!(classify_freq_arg(&"-1".to_string()), FreqArg::OutOfRange);
    assert_eq!(classify_freq_arg(&"101".to_string()), FreqArg::OutOfRange);
    assert_eq!(classify_freq_arg(&"00".to_string()), FreqArg::OutOfRange);
    assert_eq!(classify_freq_arg(&"".to_string()), FreqArg::NotNumeric);
    assert_eq!(classify_freq_arg(&"5x".to_string()), FreqArg::NotNumeric);
    assert_eq!(
        classify_freq_arg(&"99999999999999999999999".to_string()),
        FreqArg::NotNumeric
    );
}

#[test]
fn parse_i64_boundaries() {
    assert_eq!(parse_i64(&"0".to_string()), ParseOutcome::Value(0));
    assert_eq!(parse_i64(&"+42".to_string()), ParseOutcome::Value(42));
    assert_eq!(parse_i64(&"-42".to_string()), ParseOutcome::Value(-42));
    assert_eq!(
        parse_i64(&"9223372036854775807".to_string()),
        ParseOutcome::Value(i64::MAX)
    );
    assert_eq!(
        parse_i64(&"-9223372036854775808".to_string()),
        ParseOutcome::Value(i64::MIN)
    );
    assert_eq!(parse_i64(&"9223372036854775808".to_string()), ParseOutcome::Invalid);
    assert_eq!(parse_i64(&"-9223372036854775809".to_string()), ParseOutcome::Invalid);
    assert_eq!(parse_i64(&"-".to_string()), ParseOutcome::Invalid);
    assert_eq!(parse_i64(&"12 3".to_string()), ParseOutcome::Invalid);
}

#[test]
fn freq_command_grammar() {
    assert_eq!(
        parse_freq_command(&"@BOT_SSlime /freq 50".to_string()),
        Some(FreqArg::SetTo(50))
    );
    assert_eq!(
        parse_freq_command(&"  @BOT_SSlime \\freq off ".to_string()),
        Some(FreqArg::SetTo(0))
    );
    assert_eq!(
        parse_freq_command(&"@BOT_SSlime /freq 101".to_string()),
        Some(FreqArg::OutOfRange)
    );
    assert_eq!(
        parse_freq_command(&"@BOT_SSlime /freq abc".to_string()),
        Some(FreqArg::NotNumeric)
    );
    assert_eq!(parse_freq_command(&"just a message".to_string()), None);
    assert_eq!(parse_freq_command(&"@BOT_SSlime /freq".to_string()), None);
}

#[test]
fn handle_freq_command_writes_through() {
    let mut cache = FrequencyTable::new();
    let mut store = FrequencyTable::new();
    let channel = "channel-9".to_string();

    let reply = handle_try_change_freq(
        &mut cache,
        &mut store,
        channel.clone(),
        &"@BOT_SSlime /freq 30".to_string(),
    );
    assert_eq!(reply, Some(FreqReply::Updated(30)));
    assert_eq!(cache.get_frequency(&channel), Some(30));
    assert_eq!(store.get_frequency(&channel), Some(30));

    let rejected = handle_try_change_freq(
        &mut cache,
        &mut store,
        channel.clone(),
        &"@BOT_SSlime /freq 140".to_string(),
    );
    assert_eq!(rejected, Some(FreqReply::InvalidNumber));
    assert_eq!(cache.get_frequency(&channel), Some(30));

    let garbage = handle_try_change_freq(
        &mut cache,
        &mut store,
        channel.clone(),
        &"@BOT_SSlime /freq lots".to_string(),
    );
    assert_eq!(garbage, Some(FreqReply::InvalidArgument));

    let not_command = handle_try_change_freq(
        &mut cache,
        &mut store,
        channel.clone(),
        &"hello there".to_string(),
    );
    assert_eq!(not_command, None);
}

#[test]
fn mention_commands() {
    assert_eq!(
        mention_command(&"@BOT_SSlime join".to_string()),
        MentionCommand::JoinChannel
    );
    assert_eq!(
        mention_command(&"@BOT_SSlime leave".to_string()),
        MentionCommand::LeaveChannel
    );
    assert_eq!(
        mention_command(&"@BOT_SSlime hello".to_string()),
        MentionCommand::Other
    );
}

#[test]
fn jitter_and_cadence() {
    for _ in 0..100 {
        let m = emission_jitter_minutes();
        assert!((1..20).contains(&m));
    }
    assert_eq!(cron_schedule(true), "1/4 * * * * *");
    assert_eq!(cron_schedule(false), "0 0,20,40 0-15,22-23 * * *");
}

#[test]
fn model_feeds_and_generates() {
    let mut model = MarkovModel::new();
    assert!(model.is_empty());
    feed_messages(
        &mut model,
        &vec!["hello world".to_string(), ":awoo:".to_string()],
    );
    assert!(!model.is_empty());
    let message = generate_message(&model);
    assert!(!message.is_empty());
}

#[test]
fn generation_walks_fed_tokens() {
    // With a single fed string the order-2 walk is forced, so the generated
    // message is exactly its tokens run together.
    let mut model = MarkovModel::new();
    feed_messages(&mut model, &vec!["hello world".to_string()]);
    for _ in 0..20 {
        assert_eq!(generate_message(&model), "helloworld");
    }
}
