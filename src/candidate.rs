//! Checking one candidate phrase: mnemonic checksum, key derivation along the
//! account path, and the segwit address compared with the target.
use vstd::prelude::*;
use bitcoin::bip32::{ChildNumber, Xpriv};
use bitcoin::secp256k1::{All, Secp256k1};
use crate::config::Job;
use crate::phrase::tokens;

verus! {

/// An elliptic-curve context for signing and verification: expensive to
/// build, cheap to reuse. Verus sees nothing inside it.
#[verifier::external_body]
pub struct CurveContext {
    ctx: Secp256k1<All>,
}

/// Whether the words (a phrase split on whitespace) form an English mnemonic
/// with a valid checksum.
pub uninterp spec fn is_mnemonic(words: Seq<Seq<char>>) -> bool;

/// The 64-byte seed of a valid mnemonic given by its words, with an empty
/// passphrase.
pub uninterp spec fn seed_of(words: Seq<Seq<char>>) -> Seq<u8>;

/// The segwit address of the key at `path` below the master key of `seed`,
/// if every step of the derivation succeeds.
pub uninterp spec fn p2wpkh_at(seed: Seq<u8>, path: Seq<u32>) -> Option<Seq<char>>;

/// Offset that marks a derivation index as hardened.
pub const HARDENED: u32 = 0x8000_0000;

/// The path of the first receiving key of the first account:
/// `m/44'/0'/0'/0/0`, each hardened level carrying the hardened offset.
pub open spec fn receive_path() -> Seq<u32> {
    seq![(44 + HARDENED) as u32, HARDENED, HARDENED, 0u32, 0u32]
}

/// A candidate matches when it is a valid mnemonic whose first receiving
/// address is the target.
pub open spec fn matches_target(phrase: Seq<char>, target: Seq<char>) -> bool {
    is_mnemonic(tokens(phrase)) && p2wpkh_at(seed_of(tokens(phrase)), receive_path()) == Some(
        target,
    )
}

/// A valid mnemonic whose key derivation fails: an invariant violation, not a
/// miss.
pub open spec fn derivation_fails(phrase: Seq<char>) -> bool {
    is_mnemonic(tokens(phrase)) && p2wpkh_at(seed_of(tokens(phrase)), receive_path()) is None
}

/// Key derivation failed for a valid mnemonic.
#[derive(Clone, Copy, Debug, PartialEq, Eq, Structural)]
pub struct DerivationAnomaly;

/// A phrase that is not a valid mnemonic (a bad checksum, a word not on the
/// list) never matches and is no derivation failure, whatever the target: the
/// search treats it as one more miss and goes on.
pub proof fn malformed_never_matches(phrase: Seq<char>, target: Seq<char>)
    requires
        !is_mnemonic(tokens(phrase)),
    ensures
        !matches_target(phrase, target),
        !derivation_fails(phrase),
{
}

/// Only the words of a phrase count: two phrases that split into the same
/// words (whatever whitespace stands between them) get the same answer.
pub proof fn spacing_does_not_matter(p1: Seq<char>, p2: Seq<char>, target: Seq<char>)
    requires
        tokens(p1) == tokens(p2),
    ensures
        matches_target(p1, target) == matches_target(p2, target),
        derivation_fails(p1) == derivation_fails(p2),
{
}

/// Relies on `bip39::Mnemonic::parse_in_normalized` (English) to accept the
/// phrase exactly when its whitespace-separated words are a valid mnemonic,
/// and on `Mnemonic::to_seed` with an empty passphrase for the 64-byte seed,
/// which is computed from those words alone.
#[verifier::external_body]
fn mnemonic_seed(phrase: &str) -> (r: Option<Vec<u8>>)
    ensures
        r is Some == is_mnemonic(tokens(phrase@)),
        r matches Some(s) ==> s@ == seed_of(tokens(phrase@)) && s@.len() == 64,
{
    bip39::Mnemonic::parse_in_normalized(bip39::Language::English, phrase).ok().map(
        |m| m.to_seed("").to_vec(),
    )
}

/// Relies on `bitcoin::bip32::Xpriv::new_master` and `Xpriv::derive_priv` for
/// the key at `path` (indices at or above the hardened offset are hardened),
/// and on `bitcoin::Address::p2wpkh` for its mainnet segwit address.
#[verifier::external_body]
fn derive_p2wpkh(ctx: &CurveContext, seed: &Vec<u8>, path: &Vec<u32>) -> (r: Option<String>)
    requires
        path@.len() <= 255,
    ensures
        r matches Some(a) ==> p2wpkh_at(seed@, path@) == Some(a@),
        r is None ==> p2wpkh_at(seed@, path@) is None,
{
    let path: Vec<ChildNumber> = path.iter().map(|i| ChildNumber::from(*i)).collect();
    let master = Xpriv::new_master(bitcoin::Network::Bitcoin, seed).ok()?;
    let key = master.derive_priv(&ctx.ctx, &path).ok()?;
    let pk = bitcoin::PublicKey::new(key.private_key.public_key(&ctx.ctx));
    bitcoin::Address::p2wpkh(&pk, bitcoin::Network::Bitcoin).ok().map(|a| a.to_string())
}

/// Relies on `secp256k1::Secp256k1::new` for a context that can sign and verify.
#[verifier::external_body]
fn new_context() -> (r: CurveContext) {
    CurveContext { ctx: Secp256k1::new() }
}

/// Whether a derived address is the target.
pub fn address_matches(derived: &Option<String>, target: &String) -> (r: bool)
    ensures
        r == (derived matches Some(a) && a@ == target@),
{
    match derived {
        Some(a) => *a == *target,
        None => false,
    }
}

/// Checks candidates against one target address. Owns its elliptic-curve
/// context, which is built once and reused for every candidate.
pub struct Verifier {
    ctx: CurveContext,
    target: String,
    path: Vec<u32>,
}

impl Verifier {
    pub closed spec fn target(&self) -> Seq<char> {
        self.target@
    }

    pub closed spec fn wf(&self) -> bool {
        self.path@ == receive_path()
    }

    /// A verifier for the job's target address.
    pub fn new(job: &Job) -> (r: Verifier)
        ensures
            r.wf(),
            r.target() == job.target@,
    {
        let path: Vec<u32> = vec![44 + HARDENED, HARDENED, HARDENED, 0, 0];
        proof {
            assert(path@ =~= receive_path());
        }
        Verifier { ctx: new_context(), target: job.target.clone(), path }
    }

    /// Whether `phrase` is a valid mnemonic whose first receiving address is
    /// the target. An invalid mnemonic is a plain `Ok(false)`; a valid one whose
    /// key derivation fails is an error.
    pub fn check(&self, phrase: &str) -> (r: Result<bool, DerivationAnomaly>)
        requires
            self.wf(),
        ensures
            r is Err == derivation_fails(phrase@),
            r matches Ok(b) ==> b == matches_target(phrase@, self.target()),
    {
        match mnemonic_seed(phrase) {
            None => Ok(false),
            Some(seed) => {
                let derived = derive_p2wpkh(&self.ctx, &seed, &self.path);
                if derived.is_none() {
                    Err(DerivationAnomaly)
                } else {
                    Ok(address_matches(&derived, &self.target))
                }
            },
        }
    }
}

} // verus!
