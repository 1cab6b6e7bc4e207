//! What an Esplora chain source decides on its own, apart from the requests
//! it makes: which address to ask, which network answers, and whether a
//! transaction sits in a given block.
use vstd::prelude::*;
use vstd::string::{StrSliceExecFns, StringExecFns};

verus! {

/// The genesis block of the main network.
pub const MAINNET_GENESIS_BLOCK_HASH: &'static str =
    "000000000019d6689c085ae165831e934ff763ae46a2a6c172b3f1b60a8ce26f";

/// The genesis block of the test network.
pub const TESTNET_GENESIS_BLOCK_HASH: &'static str =
    "000000000933ea01ad0ee984209779baaec3ced90fa3f408719526f8d77f4943";

/// The genesis block of the signet.
pub const SIGNET_GENESIS_BLOCK_HASH: &'static str =
    "00000008819873e925422c1ff0f99f7cc9bbb232af63a077a480a3633bee1ef6";

/// The genesis block of a regression test network.
pub const REGTEST_GENESIS_BLOCK_HASH: &'static str =
    "0f9188f13cb7b2c71f2a335e3a4fc328bf5beb436012afca590b1a11466e2206";

/// The networks that a chain source can serve.
#[derive(Clone, Copy, Debug, PartialEq, Eq, Structural)]
pub enum Network {
    Bitcoin,
    Testnet,
    Signet,
    Regtest,
}

/// How to reach a chain source: of what kind it is, and where.
#[derive(Debug, PartialEq, Eq)]
pub struct BitcoinRpcConfig {
    pub kind: String,
    pub url: String,
}

/// What a chain source says of a transaction: the block it was confirmed
/// in, if any.
#[derive(Clone, Copy, Debug, PartialEq, Eq)]
pub struct TxStatus {
    pub block_height: Option<u32>,
    pub block_hash: Option<[u8; 32]>,
}

/// Why a transaction's status cannot be held against a block.
#[derive(Clone, Copy, Debug, PartialEq, Eq, Structural)]
pub enum TxStatusError {
    /// The status names a height and no block.
    MissingBlockHash,
    /// The block at that height is another one.
    HashMismatch,
}

/// `s` without the slashes at its end.
pub open spec fn without_trailing_slashes(s: Seq<char>) -> Seq<char>
    decreases s.len(),
{
    if s.len() > 0 && s.last() == '/' {
        without_trailing_slashes(s.drop_last())
    } else {
        s
    }
}

/// The network whose genesis block has this hash, written in hexadecimal.
pub open spec fn network_with_genesis(hash: Seq<char>) -> Option<Network> {
    if hash == MAINNET_GENESIS_BLOCK_HASH@ {
        Some(Network::Bitcoin)
    } else if hash == TESTNET_GENESIS_BLOCK_HASH@ {
        Some(Network::Testnet)
    } else if hash == SIGNET_GENESIS_BLOCK_HASH@ {
        Some(Network::Signet)
    } else if hash == REGTEST_GENESIS_BLOCK_HASH@ {
        Some(Network::Regtest)
    } else {
        None
    }
}

/// Whether a transaction with this status is in the block with this hash at
/// this height. A status at another height says no; one at this height has to
/// name this block.
pub open spec fn status_in_block(
    block_height_seen: Option<u32>,
    block_hash_seen: Option<Seq<u8>>,
    block_hash: Seq<u8>,
    block_height: u64,
) -> Result<bool, TxStatusError> {
    if block_height_seen matches Some(height) && height == block_height {
        match block_hash_seen {
            None => Err(TxStatusError::MissingBlockHash),
            Some(hash) => if hash == block_hash {
                Ok(true)
            } else {
                Err(TxStatusError::HashMismatch)
            },
        }
    } else {
        Ok(false)
    }
}

/// The address of the public server for `network`, unless `api` names
/// another; a regression test network is served on this machine, on `port`
/// or else on 50002.
pub open spec fn default_esplora_url(
    network: Network,
    api: Option<Seq<char>>,
    port: Option<Seq<char>>,
) -> Seq<char> {
    match api {
        Some(url) => url,
        None => match network {
            Network::Bitcoin => "https://blockstream.info/api/"@,
            Network::Testnet => "https://blockstream.info/testnet/api/"@,
            Network::Signet => "https://blockstream.info/signet/api/"@,
            Network::Regtest => "http://127.0.0.1:"@ + match port {
                Some(number) => number,
                None => "50002"@,
            } + "/"@,
        },
    }
}

/// `url` without the slashes at its end.
pub fn trim_trailing_slashes(url: &str) -> (base: String)
    ensures
        base@ == without_trailing_slashes(url@),
{
    let mut end: usize = url.unicode_len();
    assert(url@.subrange(0, end as int) =~= url@);
    while end > 0 && url.get_char(end - 1) == '/'
        invariant
            end <= url@.len(),
            without_trailing_slashes(url@) == without_trailing_slashes(
                url@.subrange(0, end as int),
            ),
        decreases end,
    {
        proof {
            let s = url@.subrange(0, end as int);
            assert(s.drop_last() =~= url@.subrange(0, end - 1));
        }
        end = end - 1;
    }
    String::from_str(url.substring_char(0, end))
}

/// The network whose genesis block has this hash, written in hexadecimal;
/// none for a hash that belongs to no known network.
pub fn network_of_genesis(hash: &str) -> (network: Option<Network>)
    ensures
        network == network_with_genesis(hash@),
{
    let hash = String::from_str(hash);
    if hash == String::from_str(MAINNET_GENESIS_BLOCK_HASH) {
        Some(Network::Bitcoin)
    } else if hash == String::from_str(TESTNET_GENESIS_BLOCK_HASH) {
        Some(Network::Testnet)
    } else if hash == String::from_str(SIGNET_GENESIS_BLOCK_HASH) {
        Some(Network::Signet)
    } else if hash == String::from_str(REGTEST_GENESIS_BLOCK_HASH) {
        Some(Network::Regtest)
    } else {
        None
    }
}

/// The number of blocks in a chain whose tip is at `tip_height`.
pub fn block_count(tip_height: u32) -> (count: u64)
    ensures
        count == tip_height + 1,
{
    tip_height as u64 + 1
}

/// The height as the chain source counts it: none where the height is beyond
/// what the source can be asked for.
pub fn block_height_index(height: u64) -> (r: Option<u32>)
    ensures
        r == if height <= u32::MAX {
            Some(height as u32)
        } else {
            None::<u32>
        },
{
    if height <= 0xFFFF_FFFF {
        Some(height as u32)
    } else {
        None
    }
}

/// The height as the chain source's callers count it.
pub fn tx_block_height(status: &TxStatus) -> (height: Option<u64>)
    ensures
        height == match status.block_height {
            Some(h) => Some(h as u64),
            None => None,
        },
{
    match status.block_height {
        Some(h) => Some(h as u64),
        None => None,
    }
}

/// Whether the two hashes are the same.
pub fn same_hash(a: &[u8; 32], b: &[u8; 32]) -> (same: bool)
    ensures
        same == (a@ == b@),
{
    let mut i: usize = 0;
    while i < 32
        invariant
            i <= 32,
            forall|k: int| 0 <= k < i ==> a@[k] == b@[k],
        decreases 32 - i,
    {
        if a[i] != b[i] {
            return false;
        }
        i = i + 1;
    }
    assert(a@ =~= b@);
    true
}

/// Whether a transaction with this status is in the block with this hash at
/// this height.
pub fn is_tx_in_block(status: &TxStatus, block_hash: &[u8; 32], block_height: u64) -> (r: Result<
    bool,
    TxStatusError,
>)
    ensures
        r == status_in_block(
            status.block_height,
            match status.block_hash {
                Some(hash) => Some(hash@),
                None => None,
            },
            block_hash@,
            block_height,
        ),
{
    let at_height = match status.block_height {
        Some(height) => height as u64 == block_height,
        None => false,
    };
    if at_height {
        match &status.block_hash {
            None => Err(TxStatusError::MissingBlockHash),
            Some(hash) => {
                if same_hash(hash, block_hash) {
                    Ok(true)
                } else {
                    Err(TxStatusError::HashMismatch)
                }
            },
        }
    } else {
        Ok(false)
    }
}

/// What an optional text holds.
pub open spec fn text_of(text: Option<&str>) -> Option<Seq<char>> {
    match text {
        Some(held) => Some(held@),
        None => None,
    }
}

/// The address that `text` reads as, written out in its normal form; none
/// where `text` is no address.
pub uninterp spec fn url_normal_form(text: Seq<char>) -> Option<Seq<char>>;

/// Calls `Url::parse` of the url crate and, where it reads an address, takes
/// the text that the address is written out as. Nothing is claimed of which
/// texts are addresses nor of how one is written out, beyond that the same
/// text gives the same answer.
#[verifier::external_body]
fn parse_url(text: &str) -> (r: Option<String>)
    ensures
        match r {
            Some(url) => url_normal_form(text@) == Some(url@),
            None => url_normal_form(text@) is None,
        },
{
    match url::Url::parse(text) {
        Ok(url) => Some(String::from(url)),
        Err(_) => None,
    }
}

/// The address of the Esplora server to use when nothing else was
/// configured, as text: that of the public server for `network`, unless `api`
/// names another; a regression test network is served on this machine, on
/// `port` or else on 50002.
pub fn default_esplora_address(network: Network, api: Option<&str>, port: Option<&str>) -> (text:
    String)
    ensures
        text@ == default_esplora_url(network, text_of(api), text_of(port)),
{
    match api {
        Some(url) => String::from_str(url),
        None => match network {
            Network::Bitcoin => String::from_str("https://blockstream.info/api/"),
            Network::Testnet => String::from_str("https://blockstream.info/testnet/api/"),
            Network::Signet => String::from_str("https://blockstream.info/signet/api/"),
            Network::Regtest => {
                let mut url = String::from_str("http://127.0.0.1:");
                match port {
                    Some(number) => url.append(number),
                    None => url.append("50002"),
                }
                url.append("/");
                url
            },
        },
    }
}

/// Where to find an Esplora server when nothing else was configured. What
/// was configured has to give an address.
pub fn default_esplora_server(network: Network, api: Option<&str>, port: Option<&str>) -> (config:
    BitcoinRpcConfig)
    requires
        url_normal_form(default_esplora_url(network, text_of(api), text_of(port))) is Some,
    ensures
        config.kind@ == "esplora"@,
        url_normal_form(default_esplora_url(network, text_of(api), text_of(port))) == Some(
            config.url@,
        ),
{
    let text = default_esplora_address(network, api, port);
    let url = match parse_url(text.as_str()) {
        Some(url) => url,
        None => text,
    };
    BitcoinRpcConfig { kind: String::from_str("esplora"), url }
}

/// Where to find an Esplora server when nothing else was configured; none
/// where what was configured gives no address.
pub fn try_default_esplora_server(
    network: Network,
    api: Option<&str>,
    port: Option<&str>,
) -> (r: Option<BitcoinRpcConfig>)
    ensures
        match r {
            Some(config) => config.kind@ == "esplora"@ && url_normal_form(
                default_esplora_url(network, text_of(api), text_of(port)),
            ) == Some(config.url@),
            None => url_normal_form(
                default_esplora_url(network, text_of(api), text_of(port)),
            ) is None,
        },
{
    let text = default_esplora_address(network, api, port);
    match parse_url(text.as_str()) {
        Some(_) => Some(default_esplora_server(network, api, port)),
        None => None,
    }
}

/// Makes the connections to Esplora servers.
#[derive(Debug)]
pub struct EsploraFactory;

/// One Esplora server: the address as it was given, and the address that
/// requests are built on.
#[derive(Debug, PartialEq, Eq)]
pub struct EsploraClient {
    pub url: String,
    pub base: String,
}

impl EsploraFactory {
    /// The server at `url`. Requests are built on the address without the
    /// slashes at its end.
    pub fn create_connection(&self, url: &str) -> (client: EsploraClient)
        ensures
            client.url@ == url@,
            client.base@ == without_trailing_slashes(url@),
    {
        EsploraClient { url: String::from_str(url), base: trim_trailing_slashes(url) }
    }
}

impl EsploraClient {
    /// How this server is reached.
    pub fn get_bitcoin_rpc_config(&self) -> (config: BitcoinRpcConfig)
        ensures
            config.kind@ == "esplora"@,
            config.url@ == self.url@,
    {
        BitcoinRpcConfig { kind: String::from_str("esplora"), url: self.url.clone() }
    }
}

} // verus!
