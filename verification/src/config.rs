//! Settings: what the environment says, or what holds where it says nothing.

use vstd::prelude::*;
use crate::numbers;
use crate::shim;
use crate::strings;

verus! {

/// A setting, or its default where it is not set.
pub open spec fn setting(value: Option<String>, default: Seq<char>) -> Seq<char> {
    match value {
        Some(text) => text@,
        None => default,
    }
}

/// A setting that is a number up to `high`, or its default where it is not set or no such number.
pub open spec fn number_setting(value: Option<String>, high: int, default: int) -> int {
    match value {
        Some(text) => match numbers::read_in_range(text@, false, 0, high) {
            Some(n) => n,
            None => default,
        },
        None => default,
    }
}

fn setting_or(value: Option<String>, default: &str) -> (res: String)
    ensures
        res@ == setting(value, default@),
{
    match value {
        Some(text) => text,
        None => strings::copy(default),
    }
}

fn number_or(value: &Option<String>, high: u64, default: u64) -> (res: u64)
    requires
        default <= high,
    ensures
        res == number_setting(*value, high as int, default as int),
        res <= high,
{
    match value {
        Some(text) => match numbers::parse_unsigned(text.as_str(), high) {
            Some(n) => n,
            None => default,
        },
        None => default,
    }
}

/// The path of a file or directory in a directory.
pub open spec fn path_in(dir: Seq<char>, name: Seq<char>) -> Seq<char> {
    if dir.len() == 0 || dir.last() == '/' {
        dir + name
    } else {
        dir.push('/') + name
    }
}

fn find_in(dir: &str, name: &str) -> (res: String)
    ensures
        res@ == path_in(dir@, name@),
{
    let chars = strings::to_chars(dir);
    let more = strings::to_chars(name);
    let mut res = strings::copy(dir);
    if chars.len() > 0 && chars[chars.len() - 1] != '/' {
        res.push('/');
    }
    let ghost before = res@;
    strings::push_range(&mut res, &more, 0, more.len());
    assert(more@.subrange(0, more@.len() as int) =~= name@);
    assert(res@ =~= before + name@);
    res
}

/// The address of a port at a host. A host with colons in it is written in brackets.
pub open spec fn address_at(host: Seq<char>, port: nat) -> Seq<char> {
    if strings::occurs(":"@, host) {
        "["@ + host + "]:"@ + numbers::digits(port)
    } else {
        host + ":"@ + numbers::digits(port)
    }
}

fn write_address(host: &str, port: u16) -> (res: String)
    ensures
        res@ == address_at(host@, port as nat),
{
    proof {
        reveal_strlit(":");
        reveal_strlit("[");
        reveal_strlit("]:");
    }
    let chars = strings::to_chars(host);
    assert(chars@.subrange(0, chars@.len() as int) =~= host@);
    if strings::contains_text(host, ":") {
        let mut res = strings::copy("[");
        strings::push_range(&mut res, &chars, 0, chars.len());
        res.push(']');
        res.push(':');
        assert(res@ =~= "["@ + host@ + "]:"@);
        numbers::push_digits(&mut res, port as u64);
        res
    } else {
        let mut res = strings::copy(host);
        res.push(':');
        assert(res@ =~= host@ + ":"@);
        numbers::push_digits(&mut res, port as u64);
        res
    }
}

/// What the environment says about the application.
#[derive(Debug, Clone)]
pub struct AppEnv {
    /// The directory that the application runs in.
    pub current_dir: String,
    pub data_dir: Option<String>,
    /// The host that the environment names, if it is an IP address.
    pub host: Option<String>,
    pub port: Option<String>,
    pub qdrant_url: Option<String>,
    pub qdrant_collection: Option<String>,
    pub tei_url: Option<String>,
    pub unoconvert_bin: Option<String>,
    pub rerank_strategy: Option<String>,
    pub embedding_vector_size: Option<String>,
}

/// The settings of the application.
#[derive(Debug, Clone)]
pub struct Config {
    /// The IP address and the port at which the application listens.
    pub bind_addr: String,
    pub data_dir: String,
    pub decks_dir: String,
    pub materials_dir: String,
    pub exports_dir: String,
    pub temp_dir: String,
    pub static_dir: String,
    pub qdrant_url: String,
    pub qdrant_collection: String,
    pub tei_url: String,
    pub unoconvert_bin: String,
    pub rerank_strategy: String,
    pub embedding_vector_size: usize,
}

impl Config {
    /// Reads the settings of the application.
    pub fn from_env(env: AppEnv) -> (res: Config)
        ensures
            res.bind_addr@ == address_at(
                setting(env.host, "127.0.0.1"@),
                number_setting(env.port, u16::MAX as int, 3000) as nat,
            ),
            res.data_dir@ == setting(env.data_dir, path_in(env.current_dir@, "data"@)),
            res.decks_dir@ == path_in(res.data_dir@, "decks"@),
            res.materials_dir@ == path_in(res.data_dir@, "materials"@),
            res.exports_dir@ == path_in(res.data_dir@, "exports"@),
            res.temp_dir@ == path_in(res.data_dir@, "tmp"@),
            res.static_dir@ == path_in(env.current_dir@, "assets"@),
            res.qdrant_url@ == setting(env.qdrant_url, "http://127.0.0.1:6333"@),
            res.qdrant_collection@ == setting(env.qdrant_collection, "shiori_card_chunks"@),
            res.tei_url@ == setting(env.tei_url, "http://127.0.0.1:8080"@),
            res.unoconvert_bin@ == setting(env.unoconvert_bin, "unoconvert"@),
            res.rerank_strategy@ == setting(env.rerank_strategy, "best_chunk"@),
            res.embedding_vector_size == number_setting(
                env.embedding_vector_size,
                usize::MAX as int,
                1024,
            ),
    {
        let port: u64 = number_or(&env.port, u16::MAX as u64, 3000);
        let size: u64 = number_or(&env.embedding_vector_size, usize::MAX as u64, 1024);
        let host = setting_or(env.host, "127.0.0.1");
        let local_dir = find_in(env.current_dir.as_str(), "data");
        let data_dir = setting_or(env.data_dir, local_dir.as_str());
        Config {
            bind_addr: write_address(host.as_str(), port as u16),
            decks_dir: find_in(data_dir.as_str(), "decks"),
            materials_dir: find_in(data_dir.as_str(), "materials"),
            exports_dir: find_in(data_dir.as_str(), "exports"),
            temp_dir: find_in(data_dir.as_str(), "tmp"),
            data_dir,
            static_dir: find_in(env.current_dir.as_str(), "assets"),
            qdrant_url: setting_or(env.qdrant_url, "http://127.0.0.1:6333"),
            qdrant_collection: setting_or(env.qdrant_collection, "shiori_card_chunks"),
            tei_url: setting_or(env.tei_url, "http://127.0.0.1:8080"),
            unoconvert_bin: setting_or(env.unoconvert_bin, "unoconvert"),
            rerank_strategy: setting_or(env.rerank_strategy, "best_chunk"),
            embedding_vector_size: size as usize,
        }
    }
}

/// What the environment says about the embedding and ranking service.
#[derive(Debug, Clone)]
pub struct ShimEnv {
    pub port: Option<String>,
    pub ollama_url: Option<String>,
    pub embedding_model: Option<String>,
    pub llm_model: Option<String>,
    pub rerank_top_n: Option<String>,
    pub rerank_batch_size: Option<String>,
}

/// The settings of the embedding and ranking service.
#[derive(Debug, Clone)]
pub struct ShimConfig {
    pub port: u16,
    pub ollama_url: String,
    pub embedding_model: String,
    /// The language model that scores candidates; without one they are scored by nearness alone.
    pub llm_model: Option<String>,
    pub rerank_top_n: usize,
    pub rerank_batch_size: usize,
}

/// A setting without the white space around it, if it is set and not blank.
pub open spec fn telling(value: Option<String>) -> Option<Seq<char>> {
    match value {
        Some(text) => if strings::trim(text@).len() > 0 {
            Some(strings::trim(text@))
        } else {
            None
        },
        None => None,
    }
}

fn read_telling(value: Option<String>) -> (res: Option<String>)
    ensures
        match (telling(value), res) {
            (Some(said), Some(text)) => text@ == said,
            (None, None) => true,
            _ => false,
        },
{
    let mut values: Vec<Option<String>> = Vec::new();
    values.push(value);
    proof {
        reveal_with_fuel(shim::first_set, 2);
        assert(shim::setting_texts(values@).skip(1).len() == 0);
    }
    shim::optional_env(&values)
}

impl ShimConfig {
    /// Reads the settings of the embedding and ranking service.
    pub fn from_env(env: ShimEnv) -> (res: ShimConfig)
        ensures
            res.port == number_setting(env.port, u16::MAX as int, 8080),
            res.ollama_url@ == setting(env.ollama_url, "http://127.0.0.1:11434"@),
            res.embedding_model@ == (match telling(env.embedding_model) {
                Some(model) => model,
                None => "nomic-embed-text:latest"@,
            }),
            match (telling(env.llm_model), res.llm_model) {
                (Some(said), Some(model)) => model@ == said,
                (None, None) => true,
                _ => false,
            },
            res.rerank_top_n == number_setting(env.rerank_top_n, usize::MAX as int, 8),
            res.rerank_batch_size == number_setting(env.rerank_batch_size, usize::MAX as int, 8),
    {
        let port: u64 = number_or(&env.port, u16::MAX as u64, 8080);
        let top_n: u64 = number_or(&env.rerank_top_n, usize::MAX as u64, 8);
        let batch: u64 = number_or(&env.rerank_batch_size, usize::MAX as u64, 8);
        let embedding_model = match read_telling(env.embedding_model) {
            Some(model) => model,
            None => strings::copy("nomic-embed-text:latest"),
        };
        ShimConfig {
            port: port as u16,
            ollama_url: setting_or(env.ollama_url, "http://127.0.0.1:11434"),
            embedding_model,
            llm_model: read_telling(env.llm_model),
            rerank_top_n: top_n as usize,
            rerank_batch_size: batch as usize,
        }
    }
}

/// What is set holds as it is, but for a number that cannot be read or is too great; what is not
/// set, or cannot be read as a number, is as by default.
pub proof fn law_settings(value: Option<String>, text: Seq<char>, high: int, number: int)
    ensures
        match value {
            None => setting(value, text) == text && number_setting(value, high, number) == number,
            Some(said) => {
                &&& setting(value, text) == said@
                &&& numbers::is_number(said@) && numbers::number(said@) <= high ==> number_setting(
                    value,
                    high,
                    number,
                ) == numbers::number(said@)
                &&& numbers::is_number(said@) && numbers::number(said@) > high ==> number_setting(
                    value,
                    high,
                    number,
                ) == number
                &&& said@.len() == 0 ==> number_setting(value, high, number) == number
            },
        },
{
}

} // verus!
