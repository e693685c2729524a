use legacy_tx::BitcoinError;
use legacy_tx::CliCommand;
use legacy_tx::parse_cli_args;

fn tokens(words: &[&str]) -> Vec<String> {
    words.iter().map(|w| w.to_string()).collect()
}

#[test]
fn empty_tokens_rejected() {
    assert_eq!(
        parse_cli_args(&[]),
        Err(BitcoinError::ParseError("No command provided".to_string()))
    );
}

#[test]
fn send_with_amount_and_address() {
    assert_eq!(
        parse_cli_args(&tokens(&["send", "5000", "1A2b3C"])),
        Ok(CliCommand::Send { amount: 5000, address: "1A2b3C".to_string() })
    );
}

#[test]
fn send_with_unparsable_amount_rejected() {
    assert_eq!(
        parse_cli_args(&tokens(&["send", "notanumber", "addr"])),
        Err(BitcoinError::ParseError("Invalid amount for send".to_string()))
    );
}

#[test]
fn send_with_missing_address_rejected() {
    assert_eq!(
        parse_cli_args(&tokens(&["send", "5000"])),
        Err(BitcoinError::ParseError("send requires amount and address".to_string()))
    );
}

#[test]
fn balance_alone() {
    assert_eq!(parse_cli_args(&tokens(&["balance"])), Ok(CliCommand::Balance));
}

#[test]
fn balance_ignores_extra_tokens() {
    assert_eq!(
        parse_cli_args(&tokens(&["balance", "now", "please"])),
        Ok(CliCommand::Balance)
    );
}

#[test]
fn unknown_command_rejected() {
    assert_eq!(
        parse_cli_args(&tokens(&["fly"])),
        Err(BitcoinError::ParseError("Unknown command".to_string()))
    );
}

#[test]
fn amount_at_u64_maximum_accepted() {
    assert_eq!(
        parse_cli_args(&tokens(&["send", "18446744073709551615", "addr"])),
        Ok(CliCommand::Send { amount: u64::MAX, address: "addr".to_string() })
    );
}

#[test]
fn amount_just_past_u64_maximum_rejected() {
    assert_eq!(
        parse_cli_args(&tokens(&["send", "18446744073709551616", "addr"])),
        Err(BitcoinError::ParseError("Invalid amount for send".to_string()))
    );
}

#[test]
fn amount_with_leading_plus_accepted() {
    assert_eq!(
        parse_cli_args(&tokens(&["send", "+17", "addr"])),
        Ok(CliCommand::Send { amount: 17, address: "addr".to_string() })
    );
}

#[test]
fn empty_and_signless_amounts_rejected() {
    for bad in ["", "+", "-5", "12 3", "0x10", "5000 "] {
        assert_eq!(
            parse_cli_args(&tokens(&["send", bad, "addr"])),
            Err(BitcoinError::ParseError("Invalid amount for send".to_string())),
            "amount {bad:?} must be rejected"
        );
    }
}

#[test]
fn error_messages_render() {
    assert_eq!(BitcoinError::InvalidTransaction.message(), "Invalid Transaction");
    assert_eq!(BitcoinError::InsufficientFunds.message(), "Insufficient Funds");
    assert_eq!(BitcoinError::InvalidAddress.message(), "Invalid Address");
    assert_eq!(
        BitcoinError::ParseError("Unknown command".to_string()).message(),
        "Parse Error: Unknown command"
    );
}
