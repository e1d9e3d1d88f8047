//! What the till is set up with.

use crate::ecash::{federation_in_code, parse_invite_code};
use crate::hex_text::{hex_decode, hex_decoded, hex_encode, hex_message, lemma_hex_decoded};
use crate::notes::FederationIdPrefix;
use crate::oob_notes::first_4;
use crate::text::{hex_digits, hexadecimal, push_hexadecimal};
use std::collections::hash_map::DefaultHasher;
use std::collections::BTreeMap;
use std::hash::{Hash, Hasher};
use vstd::prelude::*;

verus! {

/// What the till is set up with. Exchange rates are of the type `R`.
#[derive(Clone, Debug)]
pub struct PosConfig<R> {
    /// The federation's ID in hexadecimal.
    pub federation_id: String,
    /// What the PIN of the administrator was hashed to.
    pub pin_hash: String,
    /// The currency that is shown first.
    pub default_currency: String,
    /// The rates that were fetched last, by currency.
    pub cached_rates: BTreeMap<String, R>,
    /// When they were fetched.
    pub rates_timestamp: u64,
    /// A currency and a rate that were set by hand.
    pub manual_rate: Option<(String, R)>,
}

impl<R> PosConfig<R> {
    /// A till of the given federation, without a PIN yet.
    pub fn for_federation(fed_id: &[u8; 32]) -> (config: Self)
        ensures
            config.federation_id@ == hex_digits(fed_id@),
            config.pin_hash@ == ""@,
            config.default_currency@ == "USD"@,
            config.cached_rates@ == Map::<String, R>::empty(),
            config.rates_timestamp == 0,
            config.manual_rate is None,
    {
        let pin_hash = "".to_string();
        PosConfig {
            federation_id: hex_encode(fed_id),
            pin_hash,
            default_currency: "USD".to_string(),
            cached_rates: BTreeMap::new(),
            rates_timestamp: 0,
            manual_rate: None,
        }
    }

    /// A till of the federation that an invite code names.
    pub fn from_invite(code: &str) -> (config: Result<Self, String>)
        ensures
            match federation_in_code(code@) {
                Ok(id) => config matches Ok(config) && config.federation_id@ == hex_digits(id)
                    && config.pin_hash@ == ""@ && config.default_currency@ == "USD"@
                    && config.cached_rates@ == Map::<String, R>::empty() && config.rates_timestamp
                    == 0 && config.manual_rate is None,
                Err(e) => config matches Err(said) && said@ == e,
            },
    {
        match parse_invite_code(code) {
            Ok(id) => Ok(Self::for_federation(&id)),
            Err(e) => Err(e),
        }
    }

    /// Keeps the hash of a new PIN.
    pub fn set_pin(&mut self, pin: &str)
        ensures
            *final(self) == (PosConfig { pin_hash: final(self).pin_hash, ..*old(self) }),
            final(self).pin_hash@ == pin_hash(pin@),
    {
        self.pin_hash = hash_pin(pin);
    }

    /// Whether the PIN is the one that was set.
    pub fn accepts_pin(&self, pin: &str) -> (yes: bool)
        ensures
            yes == (pin_hash(pin@) == self.pin_hash@),
    {
        hash_pin(pin).eq(&self.pin_hash)
    }
}

/// The prefix in a federation's ID in hexadecimal.
pub open spec fn prefix_in_hex(federation_id: Seq<char>) -> Result<Seq<u8>, Seq<char>> {
    match hex_decoded(federation_id) {
        Ok(bytes) => if bytes.len() < 4 {
            Err("Federation ID too short"@)
        } else {
            Ok(bytes.take(4))
        },
        Err(e) => Err("Invalid federation ID hex: "@ + hex_message(e)),
    }
}

/// Finds the prefix in a federation's ID in hexadecimal.
pub fn get_federation_prefix(federation_id: &str) -> (prefix: Result<FederationIdPrefix, String>)
    ensures
        match prefix {
            Ok(prefix) => prefix_in_hex(federation_id@) == Ok::<Seq<u8>, Seq<char>>(prefix@),
            Err(e) => prefix_in_hex(federation_id@) == Err::<Seq<u8>, Seq<char>>(e@),
        },
{
    let bytes = hex_decode(federation_id);
    proof {
        lemma_hex_decoded(federation_id@, bytes);
    }
    match bytes {
        Ok(bytes) => {
            if bytes.len() < 4 {
                return Err("Federation ID too short".to_string());
            }
            Ok(first_4(&bytes))
        },
        Err(e) => {
            let mut message = "Invalid federation ID hex: ".to_string();
            message.append(e.message().as_str());
            Err(message)
        },
    }
}

/// The prefix that is found in the ID that the till was set up with is that of the federation in
/// the invite code.
pub proof fn law_prefix_of_configured_federation(id: Seq<u8>)
    requires
        id.len() == 32,
    ensures
        prefix_in_hex(hex_digits(id)) == Ok::<Seq<u8>, Seq<char>>(id.take(4)),
{
    crate::hex_text::law_hex_round_trip(id);
}

/// What a hasher has been fed once a text is hashed on top of `fed`.
pub uninterp spec fn hashed_on(fed: Seq<Seq<u8>>, text: Seq<char>) -> Seq<Seq<u8>>;

/// `str::hash` with a `DefaultHasher`: what it feeds the hasher depends on the text and on what
/// was fed before. How it does so is left open here.
#[verifier::external_body]
pub(crate) fn hash_text(text: &str, hasher: &mut DefaultHasher)
    ensures
        final(hasher)@ == hashed_on(old(hasher)@, text@),
{
    text.hash(hasher)
}

/// What a PIN is hashed to: the hash of a fresh `DefaultHasher` in hexadecimal.
pub open spec fn pin_hash(pin: Seq<char>) -> Seq<char> {
    hexadecimal(
        <DefaultHasher as vstd::std_specs::hash::DefaultHasherAdditionalSpecFns>::spec_finish(
            hashed_on(Seq::empty(), pin),
        ) as nat,
    )
}

/// Hashes a PIN. This keeps it from being read at a glance and no more.
pub fn hash_pin(pin: &str) -> (hash: String)
    ensures
        hash@ == pin_hash(pin@),
{
    let mut hasher = DefaultHasher::new();
    hash_text(pin, &mut hasher);
    let n: u64 = hasher.finish();
    digest_text(n)
}

/// A hash in hexadecimal.
pub fn digest_text(n: u64) -> (text: String)
    ensures
        text@ == hexadecimal(n as nat),
{
    let mut text = String::new();
    push_hexadecimal(&mut text, n);
    assert(text@ =~= hexadecimal(n as nat));
    text
}

/// The PIN that was set is accepted, and another one only if it is hashed to the same.
pub proof fn law_set_pin_is_accepted<R>(
    config: PosConfig<R>,
    set: Seq<char>,
    tried: &str,
    yes: bool,
)
    requires
        config.pin_hash@ == pin_hash(set),
        call_ensures(PosConfig::<R>::accepts_pin, (&config, tried), yes),
    ensures
        tried@ == set ==> yes,
        yes <==> pin_hash(tried@) == pin_hash(set),
{
}

/// A till that was set up with an invite code is one of the federation that the code names: its ID
/// stands for the very bytes, and payments are held against the first four of them. Nothing else
/// has been set yet.
pub proof fn law_set_up_by_invite<R>(code: &str, config: Result<PosConfig<R>, String>)
    requires
        call_ensures(PosConfig::<R>::from_invite, (code,), config),
    ensures
        config is Ok <==> federation_in_code(code@) is Ok,
        config matches Ok(config) ==> {
            let id = federation_in_code(code@)->Ok_0;
            &&& hex_decoded(config.federation_id@) == Ok::<Seq<u8>, crate::hex_text::HexError>(id)
            &&& id.len() >= 4 ==> prefix_in_hex(config.federation_id@) == Ok::<
                Seq<u8>,
                Seq<char>,
            >(id.take(4))
            &&& config.pin_hash@.len() == 0
            &&& config.default_currency@ == "USD"@
            &&& config.cached_rates@.dom() == Set::<String>::empty()
            &&& config.rates_timestamp == 0
            &&& config.manual_rate is None
        },
{
    reveal_strlit("");
    if let Ok(id) = federation_in_code(code@) {
        crate::hex_text::law_hex_round_trip(id);
    }
}

/// Setting a PIN changes what it is hashed to and nothing else, so that the PIN is accepted.
pub proof fn law_setting_pin<R>(
    config: &mut PosConfig<R>,
    pin: &str,
    tried: &str,
    yes: bool,
)
    requires
        call_ensures(PosConfig::<R>::set_pin, (config, pin), ()),
        call_ensures(PosConfig::<R>::accepts_pin, (&*final(config), tried), yes),
    ensures
        tried@ == pin@ ==> yes,
        yes <==> pin_hash(tried@) == pin_hash(pin@),
        final(config).federation_id == old(config).federation_id,
        final(config).default_currency == old(config).default_currency,
        final(config).cached_rates == old(config).cached_rates,
        final(config).rates_timestamp == old(config).rates_timestamp,
        final(config).manual_rate == old(config).manual_rate,
{
}

} // verus!
