use peer_net::esplora::{
    block_count, block_height_index, default_esplora_address, default_esplora_server,
    is_tx_in_block, network_of_genesis, same_hash, trim_trailing_slashes,
    try_default_esplora_server, tx_block_height, BitcoinRpcConfig, EsploraFactory, Network,
    TxStatus, TxStatusError, MAINNET_GENESIS_BLOCK_HASH, REGTEST_GENESIS_BLOCK_HASH,
    SIGNET_GENESIS_BLOCK_HASH, TESTNET_GENESIS_BLOCK_HASH,
};
use peer_net::recovery::{recovery_progress_update, ProgressUpdate};

#[test]
fn trailing_slashes_are_removed() {
    assert_eq!(trim_trailing_slashes("https://example.org/api/"), "https://example.org/api");
    assert_eq!(trim_trailing_slashes("https://example.org/api///"), "https://example.org/api");
    assert_eq!(trim_trailing_slashes("https://example.org/api"), "https://example.org/api");
    assert_eq!(trim_trailing_slashes("http://h/a/b"), "http://h/a/b");
    assert_eq!(trim_trailing_slashes("///"), "");
    assert_eq!(trim_trailing_slashes(""), "");
    assert_eq!(trim_trailing_slashes("http://münchen.example/ä/"), "http://münchen.example/ä");
}

#[test]
fn factory_keeps_the_address_and_trims_the_base() {
    let client = EsploraFactory.create_connection("http://127.0.0.1:50002/");
    assert_eq!(client.url, "http://127.0.0.1:50002/");
    assert_eq!(client.base, "http://127.0.0.1:50002");
    assert_eq!(
        client.get_bitcoin_rpc_config(),
        BitcoinRpcConfig {
            kind: "esplora".to_string(),
            url: "http://127.0.0.1:50002/".to_string(),
        }
    );
}

#[test]
fn network_is_told_by_the_genesis_block() {
    assert_eq!(network_of_genesis(MAINNET_GENESIS_BLOCK_HASH), Some(Network::Bitcoin));
    assert_eq!(network_of_genesis(TESTNET_GENESIS_BLOCK_HASH), Some(Network::Testnet));
    assert_eq!(network_of_genesis(SIGNET_GENESIS_BLOCK_HASH), Some(Network::Signet));
    assert_eq!(network_of_genesis(REGTEST_GENESIS_BLOCK_HASH), Some(Network::Regtest));
    assert_eq!(
        network_of_genesis("000000000019d6689c085ae165831e934ff763ae46a2a6c172b3f1b60a8ce26f"),
        Some(Network::Bitcoin)
    );
    assert_eq!(
        network_of_genesis("000000000019d6689c085ae165831e934ff763ae46a2a6c172b3f1b60a8ce26e"),
        None
    );
    assert_eq!(network_of_genesis(""), None);
}

#[test]
fn block_count_is_one_more_than_the_tip() {
    assert_eq!(block_count(0), 1);
    assert_eq!(block_count(799_999), 800_000);
    assert_eq!(block_count(u32::MAX), 4_294_967_296);
}

#[test]
fn height_widens() {
    let unconfirmed = TxStatus { block_height: None, block_hash: None };
    let confirmed = TxStatus { block_height: Some(u32::MAX), block_hash: Some([1; 32]) };
    assert_eq!(tx_block_height(&unconfirmed), None);
    assert_eq!(tx_block_height(&confirmed), Some(4_294_967_295));
}

#[test]
fn hashes_compare_byte_by_byte() {
    let mut other = [7u8; 32];
    assert!(same_hash(&[7; 32], &other));
    other[31] = 8;
    assert!(!same_hash(&[7; 32], &other));
    other[31] = 7;
    other[0] = 6;
    assert!(!same_hash(&[7; 32], &other));
}

#[test]
fn transaction_in_block() {
    let block = [3u8; 32];
    let status = TxStatus { block_height: Some(100), block_hash: Some(block) };
    assert_eq!(is_tx_in_block(&status, &block, 100), Ok(true));
    assert_eq!(is_tx_in_block(&status, &block, 101), Ok(false));
    assert_eq!(is_tx_in_block(&status, &[4; 32], 101), Ok(false));
    assert_eq!(is_tx_in_block(&status, &[4; 32], 100), Err(TxStatusError::HashMismatch));
    let headless = TxStatus { block_height: Some(100), block_hash: None };
    assert_eq!(is_tx_in_block(&headless, &block, 100), Err(TxStatusError::MissingBlockHash));
    assert_eq!(is_tx_in_block(&headless, &block, 99), Ok(false));
    let unconfirmed = TxStatus { block_height: None, block_hash: Some(block) };
    assert_eq!(is_tx_in_block(&unconfirmed, &block, 0), Ok(false));
    let high = TxStatus { block_height: Some(0), block_hash: Some(block) };
    assert_eq!(is_tx_in_block(&high, &block, 1 << 32), Ok(false));
}

#[test]
fn default_servers() {
    let url = |network, api: Option<&str>, port: Option<&str>| {
        let config = try_default_esplora_server(network, api, port).unwrap();
        assert_eq!(config.kind, "esplora");
        config.url
    };
    assert_eq!(url(Network::Bitcoin, None, None), "https://blockstream.info/api/");
    assert_eq!(url(Network::Testnet, None, None), "https://blockstream.info/testnet/api/");
    assert_eq!(url(Network::Signet, None, None), "https://blockstream.info/signet/api/");
    assert_eq!(url(Network::Regtest, None, None), "http://127.0.0.1:50002/");
    assert_eq!(url(Network::Regtest, None, Some("18443")), "http://127.0.0.1:18443/");
    assert_eq!(url(Network::Regtest, None, Some("65535")), "http://127.0.0.1:65535/");
    assert_eq!(url(Network::Bitcoin, None, Some("18443")), "https://blockstream.info/api/");
    assert_eq!(url(Network::Bitcoin, None, Some("no port")), "https://blockstream.info/api/");
    assert_eq!(url(Network::Regtest, Some("http://esplora/"), Some("1")), "http://esplora/");
    assert_eq!(url(Network::Bitcoin, Some("http://esplora/"), None), "http://esplora/");
    assert_eq!(
        default_esplora_server(Network::Signet, None, None).url,
        "https://blockstream.info/signet/api/"
    );
}

#[test]
fn default_server_address_is_written_in_its_normal_form() {
    let url = |api: &str| try_default_esplora_server(Network::Bitcoin, Some(api), None).unwrap().url;
    assert_eq!(url("HTTP://Example.COM"), "http://example.com/");
    assert_eq!(url("https://example.com:443/api"), "https://example.com/api");
    assert_eq!(
        try_default_esplora_server(Network::Regtest, None, Some("00080")).unwrap().url,
        "http://127.0.0.1/"
    );
}

#[test]
fn default_server_needs_an_address() {
    assert_eq!(try_default_esplora_server(Network::Bitcoin, Some("not an address"), None), None);
    assert_eq!(try_default_esplora_server(Network::Regtest, Some(""), Some("1")), None);
    assert_eq!(try_default_esplora_server(Network::Regtest, None, Some("65536")), None);
    assert_eq!(try_default_esplora_server(Network::Regtest, None, Some("port")), None);
    assert_eq!(try_default_esplora_server(Network::Regtest, None, Some("-1")), None);
}

#[test]
fn default_server_address_as_text() {
    assert_eq!(
        default_esplora_address(Network::Regtest, None, Some("port")),
        "http://127.0.0.1:port/"
    );
    assert_eq!(default_esplora_address(Network::Regtest, None, None), "http://127.0.0.1:50002/");
    assert_eq!(default_esplora_address(Network::Testnet, Some("x"), Some("1")), "x");
}

#[test]
fn height_has_to_fit_the_index() {
    assert_eq!(block_height_index(0), Some(0));
    assert_eq!(block_height_index(4_294_967_295), Some(u32::MAX));
    assert_eq!(block_height_index(4_294_967_296), None);
    assert_eq!(block_height_index(u64::MAX), None);
}

#[test]
fn recovery_reports_worth_passing_on() {
    assert_eq!(recovery_progress_update(false, false), ProgressUpdate::Forward);
    assert_eq!(recovery_progress_update(true, false), ProgressUpdate::IgnoreDone);
    assert_eq!(recovery_progress_update(false, true), ProgressUpdate::IgnoreNone);
    assert_eq!(recovery_progress_update(true, true), ProgressUpdate::IgnoreDone);
}
