//! The search job: known words, where the gap goes, the address scheme and
//! the address to find, checked once before any search starts.
use vstd::prelude::*;
use crate::phrase::{is_space, is_whitespace_char, lemma_tokens_last, tokens};

verus! {

/// Length of a full mnemonic phrase, in words.
pub const PHRASE_WORDS: usize = 12;

/// How an address is encoded from a public key.
#[derive(Clone, Copy, Debug, PartialEq, Eq, Structural)]
pub enum AddressScheme {
    /// Native segwit pay-to-witness-public-key-hash.
    P2wpkh,
}

#[derive(Clone, Copy, Debug, PartialEq, Eq, Structural)]
pub enum ConfigError {
    /// The configured address scheme is not one this library encodes.
    UnsupportedAddressScheme,
    /// The known words number fewer than 1 or more than 11.
    WordCount,
}

/// The tag that names the segwit scheme in a configuration.
pub open spec fn p2wpkh_tag() -> Seq<char> {
    seq!['p', '2', 'w', 'p', 'k', 'h']
}

/// Reads an address scheme tag.
pub fn parse_scheme(tag: &str) -> (r: Result<AddressScheme, ConfigError>)
    ensures
        r == (if tag@ == p2wpkh_tag() {
            Ok::<AddressScheme, ConfigError>(AddressScheme::P2wpkh)
        } else {
            Err(ConfigError::UnsupportedAddressScheme)
        }),
{
    let n = tag.unicode_len();
    if n != 6 {
        return Err(ConfigError::UnsupportedAddressScheme);
    }
    let want: [char; 6] = ['p', '2', 'w', 'p', 'k', 'h'];
    let mut i: usize = 0;
    while i < 6
        invariant
            n == 6,
            tag@.len() == 6,
            want@ == p2wpkh_tag(),
            i <= 6,
            forall|j: int| 0 <= j < i ==> tag@[j] == p2wpkh_tag()[j],
        decreases 6 - i,
    {
        if tag.get_char(i) != want[i] {
            return Err(ConfigError::UnsupportedAddressScheme);
        }
        i = i + 1;
    }
    proof {
        assert(tag@ =~= p2wpkh_tag());
    }
    Ok(AddressScheme::P2wpkh)
}

/// Counts the whitespace-separated words of `s`.
pub fn count_words(s: &str) -> (r: usize)
    ensures
        r == tokens(s@).len(),
{
    let n = s.unicode_len();
    let mut count: usize = 0;
    let mut i: usize = 0;
    let mut prev_space = true;
    while i < n
        invariant
            n == s@.len(),
            i <= n,
            count == tokens(s@.take(i as int)).len(),
            count <= i,
            prev_space == (i == 0 || is_space(s@[i - 1])),
        decreases n - i,
    {
        let c = s.get_char(i);
        let sp = is_whitespace_char(c);
        proof {
            let t = s@.take(i + 1);
            assert(t.drop_last() =~= s@.take(i as int));
            assert(t.last() == c);
            if i > 0 {
                assert(t[i - 1] == s@[i - 1]);
                let p = s@.take(i as int);
                assert(p.last() == s@[i - 1]);
                if !is_space(s@[i - 1]) {
                    lemma_tokens_last(p);
                }
            }
        }
        if !sp && prev_space {
            count = count + 1;
        }
        prev_space = sp;
        i = i + 1;
    }
    proof {
        assert(s@.take(n as int) =~= s@);
    }
    count
}

/// A checked search job.
pub struct Job {
    pub known: String,
    pub head: bool,
    pub missing: usize,
    pub scheme: AddressScheme,
    pub target: String,
}

impl Job {
    pub open spec fn wf(&self) -> bool {
        &&& 1 <= self.missing <= 11
        &&& tokens(self.known@).len() + self.missing == 12
    }

    /// Checks a configuration: the known words (whitespace-separated), whether
    /// the gap comes before them, the address scheme tag and the target address.
    /// The scheme is checked first, then the number of known words.
    pub fn new(words: &str, head: bool, addr_type: &str, expect_addr: &str) -> (r: Result<
        Job,
        ConfigError,
    >)
        ensures
            tag_ok(addr_type@) == !(r == Err::<Job, ConfigError>(
                ConfigError::UnsupportedAddressScheme,
            )),
            r is Err ==> (r == Err::<Job, ConfigError>(ConfigError::UnsupportedAddressScheme)
                || r == Err::<Job, ConfigError>(ConfigError::WordCount)),
            r == Err::<Job, ConfigError>(ConfigError::WordCount) <==> tag_ok(addr_type@) && !(1
                <= tokens(words@).len() <= 11),
            r matches Ok(job) ==> {
                &&& job.wf()
                &&& job.known@ == words@
                &&& job.head == head
                &&& job.scheme == AddressScheme::P2wpkh
                &&& job.target@ == expect_addr@
                &&& job.missing == 12 - tokens(words@).len()
            },
    {
        let scheme = match parse_scheme(addr_type) {
            Ok(s) => s,
            Err(e) => return Err(e),
        };
        let n = count_words(words);
        if n < 1 || n > 11 {
            return Err(ConfigError::WordCount);
        }
        Ok(
            Job {
                known: words.to_owned(),
                head,
                missing: PHRASE_WORDS - n,
                scheme,
                target: expect_addr.to_owned(),
            },
        )
    }
}

/// The tag names a scheme this library encodes.
pub open spec fn tag_ok(tag: Seq<char>) -> bool {
    tag == p2wpkh_tag()
}

} // verus!
