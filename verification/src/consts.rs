//! Addresses and fixed lists of the Wenku8 source.
use vstd::prelude::*;

verus! {

/// The site's canonical address; book and catalog URLs are built on it.
pub const BASE_URL: &'static str = "https://www.wenku8.net";

/// The host that page requests are sent to.
pub const REQUEST_BASE_URL: &'static str = "https://www.wenku8.cc";

/// The host of cover images.
pub const IMG_URL: &'static str = "https://img.wenku8.com";

/// The host of chapter illustrations.
pub const PIC_URL: &'static str = "https://pic.wenku8.com";

/// An older illustration host that is rewritten to `PIC_URL`.
pub const LEGACY_PIC_URL: &'static str = "https://pic.777743.xyz";

/// The browser identity sent with page and image requests.
pub const USER_AGENT: &'static str =
    "Mozilla/5.0 (iPhone; CPU iPhone OS 17_0 like Mac OS X) AppleWebKit/605.1.15 (KHTML, like Gecko) Version/17.0 Mobile/15E148 Safari/604.1";

/// The relay of the MewX Wenku8 client, used for searching.
pub const MEWX_RELAY_URL: &'static str = "https://wenku8-relay.mewx.org/";

/// The client identity sent to the relay.
pub const MEWX_USER_AGENT: &'static str = "Dalvik/2.1.0 (Linux; U; Android 13)";

/// The client version sent to the relay.
pub const MEWX_APP_VERSION: &'static str = "1.24-nano-mewx";

/// Entries per page of relay search results.
pub const SEARCH_PAGE_SIZE: usize = 20;

/// The tags offered when the tag page cannot be read.
pub const KNOWN_TAGS: [&'static str; 24] = [
    "校园",
    "青春",
    "恋爱",
    "治愈",
    "群像",
    "竞技",
    "音乐",
    "美食",
    "旅行",
    "欢乐向",
    "经营",
    "职场",
    "斗智",
    "脑洞",
    "宅文化",
    "穿越",
    "奇幻",
    "魔法",
    "异能",
    "战斗",
    "科幻",
    "战争",
    "冒险",
    "悬疑",
];

} // verus!
