//! Addresses of the market's HTTP interface, as its clients build them.
use vstd::prelude::*;

use crate::text::{append_str, trailing_run_start, trim_end_char, trim_end_owned};

verus! {

/// The address of the market's offer list: the base address without its trailing
/// slashes, then `/api/offers`.
pub open spec fn offers_url_of(market_base_url: Seq<char>) -> Seq<char> {
    trim_end_char(market_base_url, '/') + "/api/offers"@
}

/// The address at which the market lists offers (`GET`) and takes new ones (`POST`).
pub fn offers_url(market_base_url: &str) -> (url: String)
    ensures
        url@ == offers_url_of(market_base_url@),
{
    let mut url = trim_end_owned(market_base_url, '/');
    append_str(&mut url, "/api/offers");
    url
}

/// Slashes at the end of the market's base address do not change the offers address.
pub proof fn law_offers_url_ignores_trailing_slash(market_base_url: Seq<char>)
    ensures
        offers_url_of(market_base_url.push('/')) == offers_url_of(market_base_url),
{
    assert(market_base_url.push('/').drop_last() =~= market_base_url);
}

/// The offers address is the market's base address, unchanged up to the slashes that end
/// it, then `/api/offers`: when `n` is where the trailing slashes of the base address
/// start, the offers address is its first `n` characters followed by `/api/offers`.
pub proof fn law_offers_url_keeps_base(market_base_url: Seq<char>, n: int)
    requires
        trailing_run_start(market_base_url, '/', n),
    ensures
        offers_url_of(market_base_url) == market_base_url.subrange(0, n) + "/api/offers"@,
        offers_url_of(market_base_url).subrange(0, n) == market_base_url.subrange(0, n),
{
    crate::text::lemma_trim_end_is_before_trailing_run(market_base_url, '/', n);
    let u = offers_url_of(market_base_url);
    assert(u.subrange(0, n) =~= market_base_url.subrange(0, n));
}

} // verus!
