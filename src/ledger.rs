//! The balance-chain side of the message adapter: state blocks, the exact
//! preimage that is hashed into the bytes to sign, and the textual forms of
//! hashes, amounts and accounts.

use vstd::prelude::*;
use vstd::string::StringExecFns;
use vstd::arithmetic::div_mod::{lemma_div_denominator, lemma_fundamental_div_mod};
use crate::primitives::{blake2b_digest, blake2b_var, decode_hex, hex_text_bytes, is_hex_text, push_char};
use crate::text::{
    dec_string, hex_digit, hex_value, hex_fixed, hex_upper, parse_dec, parse_dec_bounded, parse_hex, parse_hex_bounded,
    push_decimal, push_hex_bytes, push_hex_fixed, IntParseError,
};

verus! {

/// True when every byte is zero.
pub open spec fn all_zero(b: Seq<u8>) -> bool {
    forall|i: int| 0 <= i < b.len() ==> b[i] == 0
}

/// `n` zero bytes.
pub open spec fn zero_bytes(n: nat) -> Seq<u8> {
    Seq::new(n, |i: int| 0u8)
}

/// The last `n` bytes of `v` in big-endian order.
pub open spec fn be_bytes(v: nat, n: nat) -> Seq<u8>
    decreases n,
{
    if n == 0 {
        seq![]
    } else {
        be_bytes(v / 256, (n - 1) as nat).push((v % 256) as u8)
    }
}

fn push_be_bytes(out: &mut Vec<u8>, v: u128, n: usize)
    ensures
        final(out)@ == old(out)@ + be_bytes(v as nat, n as nat),
    decreases n,
{
    if n > 0 {
        push_be_bytes(out, v / 256, n - 1);
        out.push((v % 256) as u8);
        proof {
            assert(be_bytes(v as nat, n as nat) == be_bytes((v / 256) as nat, (n - 1) as nat).push((v % 256) as u8));
        }
    } else {
        assert(old(out)@ + be_bytes(v as nat, 0) =~= old(out)@);
    }
}

fn append_bytes(out: &mut Vec<u8>, b: &[u8])
    ensures
        final(out)@ == old(out)@ + b@,
{
    let mut i: usize = 0;
    while i < b.len()
        invariant
            i <= b@.len(),
            out@ == old(out)@ + b@.subrange(0, i as int),
        decreases b@.len() - i,
    {
        out.push(b[i]);
        proof {
            assert(b@.subrange(0, i as int + 1) =~= b@.subrange(0, i as int).push(b@[i as int]));
        }
        i = i + 1;
    }
    assert(b@.subrange(0, b@.len() as int) =~= b@);
}

fn bytes32_of(v: &Vec<u8>) -> (r: [u8; 32])
    requires
        v@.len() == 32,
    ensures
        r@ == v@,
{
    let mut r = [0u8; 32];
    let mut i: usize = 0;
    while i < 32
        invariant
            i <= 32,
            v@.len() == 32,
            forall|k: int| 0 <= k < i ==> r@[k] == v@[k],
        decreases 32 - i,
    {
        r[i] = v[i];
        i = i + 1;
    }
    assert(r@ =~= v@);
    r
}

/// A 32-byte block hash.
#[derive(PartialEq, Eq, Clone, Copy, Hash, Default, PartialOrd, Ord, Debug)]
pub struct BlockHash(pub [u8; 32]);

/// A 32-byte secret key.
#[derive(PartialEq, Eq, Clone, Copy, Hash, Default, PartialOrd, Ord, Debug)]
pub struct RawKey([u8; 32]);

impl RawKey {
    /// The key's bytes.
    pub closed spec fn key_bytes(&self) -> Seq<u8> {
        self.0@
    }

    /// The key with the given bytes.
    pub fn new(bytes: [u8; 32]) -> (r: Self)
        ensures
            r.key_bytes() == bytes@,
    {
        RawKey(bytes)
    }
}

impl BlockHash {
    /// The hash whose bytes are all zero, which stands for "none yet".
    pub fn zero() -> (r: Self)
        ensures
            r.0@ == zero_bytes(32),
    {
        let r = BlockHash([0u8; 32]);
        assert(r.0@ =~= zero_bytes(32));
        r
    }

    /// Whether every byte is zero.
    pub fn is_zero(&self) -> (r: bool)
        ensures
            r == all_zero(self.0@),
    {
        let mut i: usize = 0;
        while i < 32
            invariant
                i <= 32,
                forall|k: int| 0 <= k < i ==> self.0@[k] == 0,
            decreases 32 - i,
        {
            if self.0[i] != 0 {
                return false;
            }
            i = i + 1;
        }
        true
    }

    /// The hash's bytes.
    pub fn as_bytes(&self) -> (r: &[u8; 32])
        ensures
            r@ == self.0@,
    {
        &self.0
    }

    /// Sixty-four upper-case hexadecimal digits.
    pub fn encode_hex(&self) -> (r: String)
        ensures
            r@ == hex_upper(self.0@),
    {
        let mut result = String::new();
        push_hex_bytes(&mut result, self.as_bytes().as_slice());
        result
    }

    /// Reads a hash from sixty-four hexadecimal digits of either case; what
    /// `encode_hex` writes reads back unchanged (`lemma_hex_round_trip`).
    pub fn decode_hex(s: &str) -> (r: Option<BlockHash>)
        ensures
            r is Some <==> is_hex_text(s@) && s@.len() == 64,
            r is Some ==> r->Some_0.0@ == hex_text_bytes(s@),
    {
        match decode_hex(s) {
            Some(bytes) => {
                if bytes.len() != 32 {
                    return None;
                }
                Some(BlockHash(bytes32_of(&bytes)))
            },
            None => None,
        }
    }
}

/// The link field: the source hash of a receive, or the destination account
/// of a send.
#[derive(PartialEq, Eq, Clone, Copy, Hash, Default, PartialOrd, Ord, Debug)]
pub struct Link(pub [u8; 32]);

impl Link {
    /// Sixty-four upper-case hexadecimal digits.
    pub fn encode_hex(&self) -> (r: String)
        ensures
            r@ == hex_upper(self.0@),
    {
        let mut result = String::new();
        push_hex_bytes(&mut result, self.as_bytes().as_slice());
        result
    }

    /// The link's bytes.
    pub fn as_bytes(&self) -> (r: &[u8; 32])
        ensures
            r@ == self.0@,
    {
        &self.0
    }
}

/// A 64-byte block signature.
#[derive(Clone, PartialEq, Eq, Debug, PartialOrd, Ord)]
pub struct Signature {
    pub bytes: [u8; 64],
}

impl Signature {
    /// One hundred and twenty-eight upper-case hexadecimal digits.
    pub fn encode_hex(&self) -> (r: String)
        ensures
            r@ == hex_upper(self.bytes@),
    {
        let mut result = String::new();
        push_hex_bytes(&mut result, self.bytes.as_slice());
        result
    }
}

/// An amount in raw units.
#[derive(Clone, Copy, PartialEq, Eq, Default, Debug)]
pub struct Amount {
    pub raw: u128,
}

impl Amount {
    /// The amount in decimal digits.
    pub fn to_string_dec(self) -> (r: String)
        ensures
            r@ == dec_string(self.raw as nat),
    {
        let mut result = String::new();
        push_decimal(&mut result, self.raw);
        result
    }

    /// Reads an amount written in hexadecimal, with an optional leading `+`.
    pub fn decode_hex(s: &str) -> (r: Result<Self, IntParseError>)
        ensures
            match parse_hex(s@, u128::MAX as nat + 1) {
                Ok(v) => r == Ok::<Amount, IntParseError>(Amount { raw: v as u128 }),
                Err(e) => r == Err::<Amount, IntParseError>(e),
            },
    {
        match parse_hex_bounded(s, u128::MAX) {
            Ok(v) => Ok(Amount::raw(v)),
            Err(e) => Err(e),
        }
    }

    /// The amount of `value` raw units.
    pub fn raw(value: u128) -> (r: Self)
        ensures
            r.raw == value,
    {
        Self { raw: value }
    }

    /// The sum, or `None` where it exceeds the largest amount.
    pub fn checked_add(self, rhs: Self) -> (r: Option<Self>)
        ensures
            self.raw + rhs.raw <= u128::MAX ==> r == Some(Amount { raw: (self.raw + rhs.raw) as u128 }),
            self.raw + rhs.raw > u128::MAX ==> r is None,
    {
        if self.raw <= u128::MAX - rhs.raw {
            Some(Amount::raw(self.raw + rhs.raw))
        } else {
            None
        }
    }

    /// The difference, or `None` where `rhs` is the larger.
    pub fn checked_sub(self, rhs: Self) -> (r: Option<Self>)
        ensures
            rhs.raw <= self.raw ==> r == Some(Amount { raw: (self.raw - rhs.raw) as u128 }),
            rhs.raw > self.raw ==> r is None,
    {
        if rhs.raw <= self.raw {
            Some(Amount::raw(self.raw - rhs.raw))
        } else {
            None
        }
    }
}

/// Sixteen upper-case hexadecimal digits.
pub fn to_hex_string(i: u64) -> (r: String)
    ensures
        r@ == hex_fixed(i as nat, 16),
{
    let mut result = String::new();
    push_hex_fixed(&mut result, i, 16);
    result
}

/// Reads a 64-bit number written in hexadecimal, with an optional leading
/// `+`; what `to_hex_string` writes reads back unchanged
/// (`lemma_hex_fixed_round_trip`).
pub fn u64_from_hex_str(s: &str) -> (r: Result<u64, IntParseError>)
    ensures
        match parse_hex(s@, u64::MAX as nat + 1) {
            Ok(v) => r == Ok::<u64, IntParseError>(v as u64),
            Err(e) => r == Err::<u64, IntParseError>(e),
        },
{
    let r = parse_hex_bounded(s, u64::MAX as u128);
    assert((u64::MAX as u128) as nat + 1 == u64::MAX as nat + 1);
    match r {
        Ok(v) => Ok(v as u64),
        Err(e) => Err(e),
    }
}


/// An account, named by its 32-byte public key.
#[derive(PartialEq, Eq, Clone, Copy, Hash, Default, PartialOrd, Ord, Debug)]
pub struct Account(pub [u8; 32]);

/// The kinds of block; a state block hashes its kind into its preimage.
#[derive(PartialEq, Eq, Debug, Clone, Copy)]
pub enum BlockType {
    Invalid,
    NotABlock,
    LegacySend,
    LegacyReceive,
    LegacyOpen,
    LegacyChange,
    State,
}

impl BlockType {
    /// The number that stands for the kind in a preimage.
    pub open spec fn spec_code(self) -> u8 {
        match self {
            BlockType::Invalid => 0,
            BlockType::NotABlock => 1,
            BlockType::LegacySend => 2,
            BlockType::LegacyReceive => 3,
            BlockType::LegacyOpen => 4,
            BlockType::LegacyChange => 5,
            BlockType::State => 6,
        }
    }

    /// The number that stands for the kind in a preimage.
    pub fn code(self) -> (r: u8)
        ensures
            r == self.spec_code(),
    {
        match self {
            BlockType::Invalid => 0,
            BlockType::NotABlock => 1,
            BlockType::LegacySend => 2,
            BlockType::LegacyReceive => 3,
            BlockType::LegacyOpen => 4,
            BlockType::LegacyChange => 5,
            BlockType::State => 6,
        }
    }
}

/// The fields of a state block that its hash covers.
#[derive(Clone, PartialEq, Eq, Default, Debug)]
pub struct StateHashables {
    /// The account that operates this chain.
    pub account: Account,
    /// The previous block of this chain.
    pub previous: BlockHash,
    /// The representative of this account.
    pub representative: Account,
    /// The balance after this block.
    pub balance: Amount,
    /// The source hash of a receive, or the destination account of a send.
    pub link: Link,
}

/// The fields of an open block that its hash covers.
#[derive(Clone, PartialEq, Eq, Debug)]
pub struct OpenHashables {
    /// The block of the first send to this account.
    pub source: BlockHash,
    pub representative: Account,
    pub account: Account,
}

/// The 32-byte block whose last byte is the kind's number.
pub open spec fn type_tag_block(t: BlockType) -> Seq<u8> {
    zero_bytes(31).push(t.spec_code())
}

/// The bytes hashed for a state block, in this order: the kind padded to 32
/// bytes, the account, the previous hash, the representative, the balance as
/// 16 big-endian bytes, and the link.
pub open spec fn state_preimage(h: StateHashables) -> Seq<u8> {
    type_tag_block(BlockType::State) + h.account.0@ + h.previous.0@ + h.representative.0@
        + be_bytes(h.balance.raw as nat, 16) + h.link.0@
}

/// The bytes hashed for an open block: the source, the representative, the
/// account.
pub open spec fn open_preimage(h: OpenHashables) -> Seq<u8> {
    h.source.0@ + h.representative.0@ + h.account.0@
}

/// The block hash of a preimage: its 32-byte BLAKE2b digest.
pub open spec fn block_digest(preimage: Seq<u8>) -> Seq<u8> {
    blake2b_var(32, preimage)
}

/// Gathers the bytes of a block hash and digests them in one pass.
pub struct BlockHashBuilder {
    data: Vec<u8>,
}

impl BlockHashBuilder {
    /// The bytes gathered so far.
    pub closed spec fn gathered(&self) -> Seq<u8> {
        self.data@
    }

    /// A builder that has gathered nothing.
    pub fn new() -> (r: Self)
        ensures
            r.gathered() == Seq::<u8>::empty(),
    {
        BlockHashBuilder { data: Vec::new() }
    }

    /// Appends `data` to what is to be digested.
    pub fn update(self, data: &[u8]) -> (r: Self)
        ensures
            r.gathered() == self.gathered() + data@,
    {
        let mut gathered = self.data;
        append_bytes(&mut gathered, data);
        BlockHashBuilder { data: gathered }
    }

    /// The digest of everything gathered.
    pub fn build(self) -> (r: BlockHash)
        ensures
            r.0@ == block_digest(self.gathered()),
    {
        let digest = blake2b_digest(32, self.data.as_slice());
        BlockHash(bytes32_of(&digest))
    }
}

/// What a block hash can be computed from.
pub trait BlockHashSource {
    /// The bytes that the hash digests.
    spec fn hash_preimage(&self) -> Seq<u8>;

    /// The block hash of these fields.
    fn block_hash(&self) -> (r: BlockHash)
        ensures
            r.0@ == block_digest(self.hash_preimage()),
    ;
}

impl BlockHashSource for StateHashables {
    open spec fn hash_preimage(&self) -> Seq<u8> {
        state_preimage(*self)
    }

    fn block_hash(&self) -> (r: BlockHash) {
        let mut preamble = [0u8; 32];
        preamble[31] = BlockType::State.code();
        let mut balance: Vec<u8> = Vec::new();
        push_be_bytes(&mut balance, self.balance.raw, 16);
        let b = BlockHashBuilder::new()
            .update(preamble.as_slice())
            .update(self.account.0.as_slice())
            .update(self.previous.as_bytes().as_slice())
            .update(self.representative.0.as_slice())
            .update(balance.as_slice())
            .update(self.link.as_bytes().as_slice());
        proof {
            assert(preamble@ =~= type_tag_block(BlockType::State));
            assert(balance@ =~= be_bytes(self.balance.raw as nat, 16));
            assert(b.gathered() =~= state_preimage(*self));
        }
        b.build()
    }
}

impl BlockHashSource for OpenHashables {
    open spec fn hash_preimage(&self) -> Seq<u8> {
        open_preimage(*self)
    }

    fn block_hash(&self) -> (r: BlockHash) {
        let b = BlockHashBuilder::new()
            .update(self.source.0.as_slice())
            .update(self.representative.0.as_slice())
            .update(self.account.0.as_slice());
        proof {
            assert(b.gathered() =~= open_preimage(*self));
        }
        b.build()
    }
}

/// A block hash that is computed on first use and kept.
#[derive(Clone, Default, Debug)]
pub struct LazyBlockHash {
    hash: BlockHash,
}

impl LazyBlockHash {
    /// The hash kept so far; all zero until one is computed.
    pub closed spec fn cached(&self) -> Seq<u8> {
        self.hash.0@
    }

    /// Nothing computed yet.
    pub fn new() -> (r: Self)
        ensures
            r.cached() == zero_bytes(32),
    {
        Self { hash: BlockHash::zero() }
    }

    /// The kept hash, computed from `factory` if none is kept yet.
    pub fn hash<F: BlockHashSource>(&mut self, factory: &F) -> (r: BlockHash)
        ensures
            all_zero(old(self).cached()) ==> r.0@ == block_digest(factory.hash_preimage()),
            !all_zero(old(self).cached()) ==> r.0@ == old(self).cached(),
            final(self).cached() == r.0@,
    {
        if self.hash.is_zero() {
            self.hash = factory.block_hash();
        }
        self.hash
    }
}

/// A state block.
#[derive(Clone, Debug)]
pub struct StateBlock {
    pub work: u64,
    pub signature: Signature,
    pub hashables: StateHashables,
    pub hash: LazyBlockHash,
    pub sideband: Option<BlockSideband>,
}

impl StateBlock {
    /// The block's hash, computed from its fields on first use.
    pub fn hash(&mut self) -> (r: BlockHash)
        ensures
            all_zero(old(self).hash.cached()) ==> r.0@ == block_digest(state_preimage(old(self).hashables)),
            !all_zero(old(self).hash.cached()) ==> r.0@ == old(self).hash.cached(),
            final(self).hash.cached() == r.0@,
            final(self).hashables == old(self).hashables,
    {
        self.hash.hash(&self.hashables)
    }
}

/// A block's fields as the node's JSON names and writes them, in order.
pub open spec fn field_view(fields: Seq<(String, String)>) -> Seq<(Seq<char>, Seq<char>)> {
    fields.map_values(|p: (String, String)| (p.0@, p.1@))
}

/// The JSON fields of a state block, in order.
pub open spec fn state_block_fields(b: StateBlock) -> Seq<(Seq<char>, Seq<char>)> {
    seq![
        ("type"@, "state"@),
        ("account"@, account_text(b.hashables.account)),
        ("previous"@, hex_upper(b.hashables.previous.0@)),
        ("representative"@, account_text(b.hashables.representative)),
        ("balance"@, dec_string(b.hashables.balance.raw as nat)),
        ("link"@, hex_upper(b.hashables.link.0@)),
        ("link_as_account"@, account_text(Account(b.hashables.link.0))),
        ("signature"@, hex_upper(b.signature.bytes@)),
        ("work"@, hex_fixed(b.work as nat, 16)),
    ]
}

/// The JSON fields of an open block, in order.
pub open spec fn open_block_fields(b: OpenBlock) -> Seq<(Seq<char>, Seq<char>)> {
    seq![
        ("type"@, "open"@),
        ("source"@, hex_upper(b.hashables.source.0@)),
        ("representative"@, account_text(b.hashables.representative)),
        ("account"@, account_text(b.hashables.account)),
        ("work"@, hex_fixed(b.work as nat, 16)),
        ("signature"@, hex_upper(b.signature.bytes@)),
    ]
}

fn field(name: &str, value: String) -> (r: (String, String))
    ensures
        r.0@ == name@,
        r.1@ == value@,
{
    (String::from_str(name), value)
}

impl StateBlock {
    /// The block's fields as the node's JSON names and writes them, in order.
    pub fn json_fields(&self) -> (r: Vec<(String, String)>)
        ensures
            field_view(r@) == state_block_fields(*self),
    {
        let h = &self.hashables;
        let mut r: Vec<(String, String)> = Vec::new();
        r.push(field("type", String::from_str("state")));
        r.push(field("account", h.account.encode_account()));
        r.push(field("previous", h.previous.encode_hex()));
        r.push(field("representative", h.representative.encode_account()));
        r.push(field("balance", h.balance.to_string_dec()));
        r.push(field("link", h.link.encode_hex()));
        r.push(field("link_as_account", Account(h.link.0).encode_account()));
        r.push(field("signature", self.signature.encode_hex()));
        r.push(field("work", to_hex_string(self.work)));
        assert(field_view(r@) =~= state_block_fields(*self));
        r
    }
}

/// An open block, the first block of an account.
#[derive(Clone, Debug)]
pub struct OpenBlock {
    pub work: u64,
    pub signature: Signature,
    pub hashables: OpenHashables,
    pub hash: LazyBlockHash,
    pub sideband: Option<BlockSideband>,
}

impl OpenBlock {
    /// An unsigned open block whose hash is computed at once.
    pub fn new(
        source: BlockHash,
        representative: Account,
        account: Account,
        signing_share: &RawKey,
        pub_key: &Account,
        work: u64,
    ) -> (r: Self)
        ensures
            r.hashables == (OpenHashables { source, representative, account }),
            r.work == work,
            r.signature.bytes@ == zero_bytes(64),
            r.sideband is None,
            r.hash.cached() == block_digest(open_preimage(r.hashables)),
    {
        let hashables = OpenHashables { source, representative, account };
        let mut hash = LazyBlockHash::new();
        let _tx_hash = hash.hash(&hashables);
        let signature = Signature { bytes: [0u8; 64] };
        assert(signature.bytes@ =~= zero_bytes(64));
        Self { work, signature, hashables, hash, sideband: None }
    }

    /// The block's hash, computed from its fields on first use.
    pub fn hash(&mut self) -> (r: BlockHash)
        ensures
            all_zero(old(self).hash.cached()) ==> r.0@ == block_digest(open_preimage(old(self).hashables)),
            !all_zero(old(self).hash.cached()) ==> r.0@ == old(self).hash.cached(),
            final(self).hash.cached() == r.0@,
            final(self).hashables == old(self).hashables,
    {
        self.hash.hash(&self.hashables)
    }

    /// The block's fields as the node's JSON names and writes them, in order.
    pub fn json_fields(&self) -> (r: Vec<(String, String)>)
        ensures
            field_view(r@) == open_block_fields(*self),
    {
        let h = &self.hashables;
        let mut r: Vec<(String, String)> = Vec::new();
        r.push(field("type", String::from_str("open")));
        r.push(field("source", h.source.encode_hex()));
        r.push(field("representative", h.representative.encode_account()));
        r.push(field("account", h.account.encode_account()));
        r.push(field("work", to_hex_string(self.work)));
        r.push(field("signature", self.signature.encode_hex()));
        assert(field_view(r@) =~= open_block_fields(*self));
        r
    }
}

/// What a node records beside a block.
#[derive(Debug, Clone, PartialEq, Eq)]
pub struct BlockSideband {
    pub height: u64,
    pub timestamp: u64,
    /// The block that follows this one.
    pub successor: BlockHash,
    pub account: Account,
    pub balance: Amount,
    pub details: BlockDetails,
    pub source_epoch: Epoch,
}

/// The epoch of a block.
#[derive(PartialEq, Eq, Debug, Clone, Copy, Hash, Default, PartialOrd, Ord)]
pub enum Epoch {
    Invalid,
    #[default]
    Unspecified,
    Epoch0,
    Epoch1,
    Epoch2,
}

/// What kind of transfer a block is.
#[derive(Debug, PartialEq, Eq, Clone)]
pub struct BlockDetails {
    pub epoch: Epoch,
    pub is_send: bool,
    pub is_receive: bool,
    pub is_epoch: bool,
}


/// The 32 characters of the account alphabet, by value.
pub open spec fn account_alphabet() -> Seq<char> {
    seq![
        '1', '3', '4', '5', '6', '7', '8', '9', 'a', 'b', 'c', 'd', 'e', 'f', 'g', 'h',
        'i', 'j', 'k', 'm', 'n', 'o', 'p', 'q', 'r', 's', 't', 'u', 'w', 'x', 'y', 'z',
    ]
}

/// The position of `c` in the account alphabet, or -1.
pub open spec fn alphabet_position(c: char) -> int {
    if account_alphabet().contains(c) {
        account_alphabet().index_of(c)
    } else {
        -1
    }
}

/// Bit `j` of `b` read as one big-endian number, counting from the most
/// significant bit; zero outside the bytes.
pub open spec fn be_bit(b: Seq<u8>, j: int) -> u8 {
    if 0 <= j < 8 * b.len() {
        ((b[j / 8] as nat / pow2_8((7 - j % 8) as nat)) % 2) as u8
    } else {
        0
    }
}

/// The `width` bits of `b` that start at bit `from`, as a number.
pub open spec fn bits_value(b: Seq<u8>, from: int, width: nat) -> nat
    decreases width,
{
    if width == 0 {
        0
    } else {
        2 * bits_value(b, from, (width - 1) as nat) + be_bit(b, from + width - 1) as nat
    }
}

/// The 37 bytes that an account's text encodes: the key, then its 5-byte
/// BLAKE2b checksum read as a little-endian number.
pub open spec fn account_payload(a: Account) -> Seq<u8> {
    a.0@ + blake2b_var(5, a.0@).reverse()
}

/// The 296 payload bits, after four zero bits, in sixty groups of five.
pub open spec fn account_digit(a: Account, k: int) -> nat {
    bits_value(account_payload(a), 5 * k - 4, 5)
}

/// `nano_` and sixty characters of the alphabet, most significant first.
pub open spec fn account_text(a: Account) -> Seq<char> {
    seq!['n', 'a', 'n', 'o', '_'] + Seq::new(60, |k: int| account_alphabet()[account_digit(a, k) as int])
}

/// The characters that follow the five-character prefix.
pub open spec fn after_prefix(s: Seq<char>) -> Seq<char> {
    if s.len() <= 5 {
        seq![]
    } else {
        s.subrange(5, s.len() as int)
    }
}

/// Bit `p`, counting from the least significant, of the number whose base-32
/// digits are `d`, most significant first.
pub open spec fn digits_bit(d: Seq<u8>, p: int) -> u8 {
    let k = d.len() - 1 - p / 5;
    if 0 <= k < d.len() {
        ((d[k] as nat / pow2_8((p % 5) as nat)) % 2) as u8
    } else {
        0
    }
}

/// The first `m` bits, most significant first, of byte `j` of the account
/// that the digits `d` carry above their 40 checksum bits.
pub open spec fn decoded_bits(d: Seq<u8>, j: int, m: nat) -> nat
    decreases m,
{
    if m == 0 {
        0
    } else {
        2 * decoded_bits(d, j, (m - 1) as nat) + digits_bit(d, 40 + 8 * (31 - j) + 8 - m) as nat
    }
}

/// The account that the digits `d` carry.
pub open spec fn decoded_account(d: Seq<u8>) -> Seq<u8> {
    Seq::new(32, |j: int| decoded_bits(d, j, 8) as u8)
}

/// The alphabet values of the characters after the prefix, or `None` where
/// one of them is not in the alphabet.
pub open spec fn account_digits(s: Seq<char>) -> Option<Seq<u8>> {
    let t = after_prefix(s);
    if forall|i: int| 0 <= i < t.len() ==> alphabet_position(t[i]) >= 0 {
        Some(Seq::new(t.len(), |i: int| alphabet_position(t[i]) as u8))
    } else {
        None
    }
}

/// Why an account could not be read from text.
#[derive(Clone, Copy, Debug, PartialEq, Eq, Structural)]
pub enum AccountDecodeError {
    /// A character after the prefix is not in the account alphabet.
    InvalidCharacter,
}

fn account_encode(value: u8) -> (c: char)
    requires
        value < 32,
    ensures
        c == account_alphabet()[value as int],
{
    let table = "13456789abcdefghijkmnopqrstuwxyz";
    proof {
        reveal_strlit("13456789abcdefghijkmnopqrstuwxyz");
        assert(table@ =~= account_alphabet());
    }
    table.get_char(value as usize)
}

fn account_decode(value: char) -> (r: Option<u8>)
    ensures
        alphabet_position(value) >= 0 ==> r == Some(alphabet_position(value) as u8),
        alphabet_position(value) < 0 ==> r is None,
{
    let table = "13456789abcdefghijkmnopqrstuwxyz";
    proof {
        reveal_strlit("13456789abcdefghijkmnopqrstuwxyz");
        assert(table@ =~= account_alphabet());
    }
    let mut i: usize = 0;
    while i < 32
        invariant
            i <= 32,
            table@ == account_alphabet(),
            forall|k: int| 0 <= k < i ==> account_alphabet()[k] != value,
        decreases 32 - i,
    {
        if table.get_char(i) == value {
            proof {
                assert(account_alphabet().contains(value));
                let p = account_alphabet().index_of(value);
                assert(account_alphabet()[p] == value);
                assert(p >= i as int);
                assert forall|k: int| 0 <= k < p implies account_alphabet()[k] != value by {}
                assert(p == i as int);
            }
            return Some(i as u8);
        }
        i = i + 1;
    }
    proof {
        assert(!account_alphabet().contains(value));
    }
    None
}

/// The characters of `s` after its five-character prefix.
fn chars_after_prefix(s: &str) -> (r: &str)
    ensures
        r@ == after_prefix(s@),
{
    let n = s.unicode_len();
    if n <= 5 {
        let e = "";
        proof {
            reveal_strlit("");
        }
        e
    } else {
        s.substring_char(5, n)
    }
}

fn payload_digit(payload: &Vec<u8>, k: usize) -> (d: u8)
    requires
        payload@.len() == 37,
        k < 60,
    ensures
        d as nat == bits_value(payload@, 5 * k - 4, 5),
        d < 32,
{
    let mut v: u8 = 0;
    let mut m: usize = 0;
    proof {
        reveal_with_fuel(pow2_8, 6);
    }
    while m < 5
        invariant
            pow2_8(0) == 1 && pow2_8(1) == 2 && pow2_8(2) == 4 && pow2_8(3) == 8
                && pow2_8(4) == 16 && pow2_8(5) == 32,
            m <= 5,
            k < 60,
            payload@.len() == 37,
            v as nat == bits_value(payload@, 5 * k - 4, m as nat),
            v < pow2_8(m as nat),
        decreases 5 - m,
    {
        let mut bit: u8 = 0;
        if 5 * k + m >= 4 {
            let j: usize = 5 * k + m - 4;
            let byte = payload[j / 8];
            bit = (byte / small_pow2((7 - j % 8) as u8)) % 2;
        }
        assert(bit <= 1);
        assert(be_bit(payload@, 5 * k - 4 + (m + 1) - 1) == bit);
        v = 2 * v + bit;
        m = m + 1;
    }
    v
}

impl Account {
    /// The account's text: `nano_`, then the key and its checksum in
    /// sixty characters of the account alphabet.
    pub fn encode_account(&self) -> (r: String)
        ensures
            r@ == account_text(*self),
    {
        let check = self.account_checksum();
        let mut payload: Vec<u8> = Vec::new();
        append_bytes(&mut payload, self.0.as_slice());
        let mut i: usize = 5;
        while i > 0
            invariant
                i <= 5,
                check@.len() == 5,
                check@ == blake2b_var(5, self.0@),
                payload@ == self.0@ + check@.reverse().subrange(0, 5 - i),
            decreases i,
        {
            i = i - 1;
            payload.push(check[i]);
            proof {
                assert(check@.reverse().subrange(0, 5 - i as int) =~= check@.reverse().subrange(0, 4 - i as int).push(check@[i as int]));
            }
        }
        assert(check@.reverse().subrange(0, 5) =~= check@.reverse());
        assert(payload@ == account_payload(*self));
        let prefix = "nano_";
        proof {
            reveal_strlit("nano_");
        }
        let mut result = String::from_str(prefix);
        let mut k: usize = 0;
        while k < 60
            invariant
                k <= 60,
                payload@ == account_payload(*self),
                payload@.len() == 37,
                result@ == seq!['n', 'a', 'n', 'o', '_'] + Seq::new(k as nat, |q: int| account_alphabet()[account_digit(*self, q) as int]),
            decreases 60 - k,
        {
            let d = payload_digit(&payload, k);
            push_char(&mut result, account_encode(d));
            proof {
                assert(Seq::new(k as nat + 1, |q: int| account_alphabet()[account_digit(*self, q) as int])
                    =~= Seq::new(k as nat, |q: int| account_alphabet()[account_digit(*self, q) as int]).push(account_alphabet()[d as int]));
            }
            k = k + 1;
        }
        assert(result@ =~= account_text(*self));
        result
    }

    fn account_checksum(&self) -> (r: Vec<u8>)
        ensures
            r@ == blake2b_var(5, self.0@),
            r@.len() == 5,
    {
        blake2b_digest(5, self.0.as_slice())
    }

    /// Reads an account from its text. The five-character prefix and the
    /// checksum are not checked; every character after the prefix must be in
    /// the account alphabet. The text that `encode_account` writes reads back
    /// as the same account (`lemma_account_text_round_trip`).
    pub fn decode_account(source: &str) -> (r: Result<Account, AccountDecodeError>)
        ensures
            match account_digits(source@) {
                Some(d) => r is Ok && r->Ok_0.0@ == decoded_account(d),
                None => r == Err::<Account, AccountDecodeError>(AccountDecodeError::InvalidCharacter),
            },
    {
        let rest = chars_after_prefix(source);
        let n = rest.unicode_len();
        let mut digits: Vec<u8> = Vec::new();
        let mut i: usize = 0;
        while i < n
            invariant
                i <= n,
                n == rest@.len(),
                rest@ == after_prefix(source@),
                digits@.len() == i,
                forall|q: int| 0 <= q < i ==> alphabet_position(#[trigger] rest@[q]) >= 0,
                forall|q: int| 0 <= q < i ==> #[trigger] digits@[q] == alphabet_position(rest@[q]) as u8,
            decreases n - i,
        {
            let c = rest.get_char(i);
            let decoded = account_decode(c);
            if decoded.is_none() {
                return Err(AccountDecodeError::InvalidCharacter);
            }
            let d = decoded.unwrap();
            let ghost before = digits@;
            digits.push(d);
            proof {
                assert(alphabet_position(c) >= 0);
                assert(d == alphabet_position(c) as u8);
                assert(rest@[i as int] == c);
                assert forall|q: int| 0 <= q < i + 1 implies alphabet_position(rest@[q]) >= 0 by {
                    if q < i {
                        assert(alphabet_position(rest@[q]) >= 0);
                    }
                }
                assert forall|q: int| 0 <= q < i + 1 implies digits@[q] == alphabet_position(rest@[q]) as u8 by {
                    if q < i {
                        assert(digits@[q] == before[q]);
                    }
                }
            }
            i = i + 1;
        }
        proof {
            let t = after_prefix(source@);
            assert(t == rest@);
            assert forall|q: int| 0 <= q < t.len() implies alphabet_position(t[q]) >= 0 by {}
            assert(account_digits(source@) is Some);
            assert(account_digits(source@)->Some_0 =~= digits@);
        }
        Ok(Account(account_bytes(&digits)))
    }
}

fn small_pow2(n: u8) -> (r: u8)
    requires
        n < 8,
    ensures
        r as nat == pow2_8(n as nat),
        r > 0,
{
    proof {
        reveal_with_fuel(pow2_8, 8);
    }
    if n == 0 {
        1
    } else if n == 1 {
        2
    } else if n == 2 {
        4
    } else if n == 3 {
        8
    } else if n == 4 {
        16
    } else if n == 5 {
        32
    } else if n == 6 {
        64
    } else {
        128
    }
}

fn digit_bit(d: &Vec<u8>, p: usize) -> (b: u8)
    requires
        p < 512,
    ensures
        b == digits_bit(d@, p as int),
        b <= 1,
{
    let q = p / 5;
    if q < d.len() {
        let k = d.len() - 1 - q;
        (d[k] / small_pow2((p % 5) as u8)) % 2
    } else {
        0
    }
}

fn account_bytes(d: &Vec<u8>) -> (r: [u8; 32])
    ensures
        r@ == decoded_account(d@),
{
    let mut r = [0u8; 32];
    let mut j: usize = 0;
    while j < 32
        invariant
            j <= 32,
            forall|q: int| 0 <= q < j ==> r@[q] == decoded_account(d@)[q],
        decreases 32 - j,
    {
        let mut v: u8 = 0;
        let mut m: usize = 0;
        proof {
            reveal_with_fuel(pow2_8, 9);
        }
        while m < 8
            invariant
                pow2_8(0) == 1 && pow2_8(1) == 2 && pow2_8(2) == 4 && pow2_8(3) == 8
                    && pow2_8(4) == 16 && pow2_8(5) == 32 && pow2_8(6) == 64 && pow2_8(7) == 128
                    && pow2_8(8) == 256,
                m <= 8,
                j < 32,
                v as nat == decoded_bits(d@, j as int, m as nat),
                v as nat <= pow2_8(m as nat) - 1,
            decreases 8 - m,
        {
            let bit = digit_bit(d, 40 + 8 * (31 - j) + 7 - m);
            assert(40 + 8 * (31 - j as int) + 8 - (m + 1) == 40 + 8 * (31 - j) + 7 - m);
            v = 2 * v + bit;
            m = m + 1;
        }
        r[j] = v;
        j = j + 1;
    }
    assert(r@ =~= decoded_account(d@));
    r
}

/// Two to the power `m`.
pub open spec fn pow2_8(m: nat) -> nat
    decreases m,
{
    if m == 0 {
        1
    } else {
        2 * pow2_8((m - 1) as nat)
    }
}


/// Why the balance-chain adapter could not build a block.
#[derive(Clone, Copy, Debug, PartialEq, Eq, Structural)]
pub enum AdapterError {
    /// The destination is not an account's text.
    InvalidDestination,
    /// The amount sent exceeds the balance.
    InsufficientBalance,
    /// The balance after a receive exceeds the largest amount.
    BalanceOverflow,
}

impl Amount {
    /// Reads an amount written in decimal, with an optional leading `+`;
    /// what `to_string_dec` writes reads back unchanged
    /// (`lemma_decimal_round_trip`).
    pub fn decode_dec(s: &str) -> (r: Result<Self, IntParseError>)
        ensures
            match parse_dec(s@, u128::MAX as nat + 1) {
                Ok(v) => r == Ok::<Amount, IntParseError>(Amount { raw: v as u128 }),
                Err(e) => r == Err::<Amount, IntParseError>(e),
            },
    {
        match parse_dec_bounded(s, u128::MAX) {
            Ok(v) => Ok(Amount::raw(v)),
            Err(e) => Err(e),
        }
    }
}

/// The fields of a receive: the balance grows by the amount received and
/// the link is the source block's hash.
pub fn receive_hashables(
    account: Account,
    previous: BlockHash,
    representative: Account,
    balance: Amount,
    received: Amount,
    source: BlockHash,
) -> (r: Result<StateHashables, AdapterError>)
    ensures
        balance.raw + received.raw <= u128::MAX ==> r == Ok::<StateHashables, AdapterError>(
            StateHashables {
                account,
                previous,
                representative,
                balance: Amount { raw: (balance.raw + received.raw) as u128 },
                link: Link(source.0),
            },
        ),
        balance.raw + received.raw > u128::MAX ==> r == Err::<StateHashables, AdapterError>(
            AdapterError::BalanceOverflow,
        ),
{
    match balance.checked_add(received) {
        Some(total) => Ok(StateHashables { account, previous, representative, balance: total, link: Link(source.0) }),
        None => Err(AdapterError::BalanceOverflow),
    }
}

/// The fields of a send: the balance shrinks by the amount sent and the
/// link is the destination account, read from its text.
pub fn send_hashables(
    account: Account,
    previous: BlockHash,
    representative: Account,
    balance: Amount,
    amount: Amount,
    destination: &str,
) -> (r: Result<StateHashables, AdapterError>)
    ensures
        account_digits(destination@) is None ==> r == Err::<StateHashables, AdapterError>(
            AdapterError::InvalidDestination,
        ),
        account_digits(destination@) is Some && amount.raw > balance.raw ==> r == Err::<
            StateHashables,
            AdapterError,
        >(AdapterError::InsufficientBalance),
        account_digits(destination@) is Some && amount.raw <= balance.raw ==> r is Ok && r->Ok_0.account
            == account && r->Ok_0.previous == previous && r->Ok_0.representative == representative
            && r->Ok_0.balance == (Amount { raw: (balance.raw - amount.raw) as u128 }) && r->Ok_0.link.0@
            == decoded_account(account_digits(destination@)->Some_0),
{
    let to = match Account::decode_account(destination) {
        Ok(a) => a,
        Err(_) => {
            return Err(AdapterError::InvalidDestination);
        },
    };
    match balance.checked_sub(amount) {
        Some(rest) => Ok(StateHashables { account, previous, representative, balance: rest, link: Link(to.0) }),
        None => Err(AdapterError::InsufficientBalance),
    }
}

/// The message that the group signs for a state block: its block hash.
pub fn message_to_sign(h: &StateHashables) -> (r: BlockHash)
    ensures
        r.0@ == block_digest(state_preimage(*h)),
{
    h.block_hash()
}

/// Two to the power `8 n`.
pub open spec fn pow256(n: nat) -> nat
    decreases n,
{
    if n == 0 {
        1
    } else {
        256 * pow256((n - 1) as nat)
    }
}

proof fn lemma_be_bytes_injective(v: nat, w: nat, n: nat)
    requires
        v < pow256(n),
        w < pow256(n),
        be_bytes(v, n) == be_bytes(w, n),
    ensures
        v == w,
    decreases n,
{
    if n > 0 {
        let pv = be_bytes(v / 256, (n - 1) as nat);
        let pw = be_bytes(w / 256, (n - 1) as nat);
        assert(be_bytes(v, n).drop_last() == pv);
        assert(be_bytes(w, n).drop_last() == pw);
        assert(be_bytes(v, n).last() == (v % 256) as u8);
        assert(v / 256 < pow256((n - 1) as nat)) by (nonlinear_arith)
            requires v < 256 * pow256((n - 1) as nat);
        assert(w / 256 < pow256((n - 1) as nat)) by (nonlinear_arith)
            requires w < 256 * pow256((n - 1) as nat);
        lemma_be_bytes_injective(v / 256, w / 256, (n - 1) as nat);
        assert(v % 256 == w % 256);
        assert(v == 256 * (v / 256) + v % 256) by (nonlinear_arith);
        assert(w == 256 * (w / 256) + w % 256) by (nonlinear_arith);
    } else {
        assert(pow256(0) == 1);
    }
}

proof fn lemma_be_bytes_len(v: nat, n: nat)
    ensures
        be_bytes(v, n).len() == n,
    decreases n,
{
    if n > 0 {
        lemma_be_bytes_len(v / 256, (n - 1) as nat);
    }
}

proof fn lemma_pow256_16()
    ensures
        pow256(16) == u128::MAX as nat + 1,
{
    reveal_with_fuel(pow256, 17);
}

/// The balance-chain adapter is a pure function of its declared inputs:
/// identical block fields give byte-identical messages, and the preimage
/// layout is unambiguous, so any two different sets of fields give
/// different preimages.
pub proof fn lemma_message_determined_by_fields(a: StateHashables, b: StateHashables)
    ensures
        a == b ==> block_digest(state_preimage(a)) == block_digest(state_preimage(b)),
        state_preimage(a) == state_preimage(b) ==> a == b,
{
    if state_preimage(a) == state_preimage(b) {
        let pa = state_preimage(a);
        let pb = state_preimage(b);
        lemma_be_bytes_len(a.balance.raw as nat, 16);
        lemma_be_bytes_len(b.balance.raw as nat, 16);
        assert(pa.len() == 176);
        assert(a.account.0@ =~= pa.subrange(32, 64));
        assert(b.account.0@ =~= pb.subrange(32, 64));
        assert(a.previous.0@ =~= pa.subrange(64, 96));
        assert(b.previous.0@ =~= pb.subrange(64, 96));
        assert(a.representative.0@ =~= pa.subrange(96, 128));
        assert(b.representative.0@ =~= pb.subrange(96, 128));
        assert(be_bytes(a.balance.raw as nat, 16) =~= pa.subrange(128, 144));
        assert(be_bytes(b.balance.raw as nat, 16) =~= pb.subrange(128, 144));
        assert(a.link.0@ =~= pa.subrange(144, 176));
        assert(b.link.0@ =~= pb.subrange(144, 176));
        lemma_pow256_16();
        lemma_be_bytes_injective(a.balance.raw as nat, b.balance.raw as nat, 16);
        assert(a.account.0 =~= b.account.0);
        assert(a.previous.0 =~= b.previous.0);
        assert(a.representative.0 =~= b.representative.0);
        assert(a.link.0 =~= b.link.0);
    }
}


proof fn lemma_pow2_8_step(n: nat)
    ensures
        pow2_8(n) > 0,
        pow2_8(n + 1) == 2 * pow2_8(n),
    decreases n,
{
    if n > 0 {
        lemma_pow2_8_step((n - 1) as nat);
    }
}

proof fn lemma_bits_value_below(b: Seq<u8>, from: int, w: nat)
    ensures
        bits_value(b, from, w) < pow2_8(w),
    decreases w,
{
    lemma_pow2_8_step(w);
    if w > 0 {
        lemma_bits_value_below(b, from, (w - 1) as nat);
        lemma_pow2_8_step((w - 1) as nat);
    }
}

proof fn lemma_bits_value_bit(b: Seq<u8>, from: int, w: nat, r: nat)
    requires
        r < w,
    ensures
        (bits_value(b, from, w) / pow2_8(r)) % 2 == be_bit(b, from + w - 1 - r) as nat,
    decreases w,
{
    let x = bits_value(b, from, (w - 1) as nat);
    let c = be_bit(b, from + w - 1) as nat;
    assert(c < 2);
    assert(bits_value(b, from, w) == 2 * x + c);
    if r == 0 {
        assert(pow2_8(0) == 1);
    } else {
        lemma_pow2_8_step((r - 1) as nat);
        let q = pow2_8((r - 1) as nat);
        lemma_div_denominator((2 * x + c) as int, 2, q as int);
        assert((2 * x + c) / 2 == x);
        assert((2 * x + c) / (2 * q) == x / q);
        lemma_bits_value_bit(b, from, (w - 1) as nat, (r - 1) as nat);
    }
}

proof fn lemma_byte_bits(b: Seq<u8>, j: int, m: nat)
    requires
        0 <= j < b.len(),
        m <= 8,
    ensures
        bits_value(b, 8 * j, m) == b[j] as nat / pow2_8((8 - m) as nat),
    decreases m,
{
    let x = b[j] as nat;
    if m == 0 {
        reveal_with_fuel(pow2_8, 9);
        assert(pow2_8(8) == 256);
        assert(x / 256 == 0);
    } else {
        lemma_byte_bits(b, j, (m - 1) as nat);
        assert(bits_value(b, 8 * j, m) == 2 * bits_value(b, 8 * j, (m - 1) as nat) + be_bit(b, 8 * j + m - 1) as nat);
        let q = pow2_8((8 - m) as nat);
        lemma_pow2_8_step((8 - m) as nat);
        assert(pow2_8((9 - m) as nat) == 2 * q);
        assert((8 * j + m - 1) / 8 == j);
        assert((8 * j + m - 1) % 8 == m - 1);
        assert(be_bit(b, 8 * j + m - 1) as nat == (x / q) % 2);
        lemma_div_denominator(x as int, q as int, 2);
        assert(x / (2 * q) == (x / q) / 2);
        lemma_fundamental_div_mod((x / q) as int, 2);
        assert(bits_value(b, 8 * j, (m - 1) as nat) == x / (2 * q));
    }
}

proof fn lemma_alphabet_increasing(i: int, j: int)
    requires
        0 <= i < j < 32,
    ensures
        account_alphabet()[i] < account_alphabet()[j],
    decreases j - i,
{
    let a = account_alphabet();
    assert(forall|k: int| 0 <= k < 31 ==> #[trigger] a[k] < a[k + 1]);
    if j > i + 1 {
        lemma_alphabet_increasing(i, j - 1);
        assert(a[j - 1] < a[j]);
    } else {
        assert(a[i] < a[i + 1]);
    }
}

proof fn lemma_alphabet_position(d: int)
    requires
        0 <= d < 32,
    ensures
        alphabet_position(account_alphabet()[d]) == d,
{
    let a = account_alphabet();
    assert(a.contains(a[d]));
    let i = a.index_of(a[d]);
    assert(0 <= i < a.len() && a[i] == a[d]);
    if i < d {
        lemma_alphabet_increasing(i, d);
    } else if i > d {
        lemma_alphabet_increasing(d, i);
    }
}

/// Reading back an account's text gives the account.
pub proof fn lemma_account_text_round_trip(a: Account)
    ensures
        account_digits(account_text(a)) is Some,
        decoded_account(account_digits(account_text(a))->Some_0) == a.0@,
{
    let text = account_text(a);
    let t = after_prefix(text);
    let body = Seq::new(60, |k: int| account_alphabet()[account_digit(a, k) as int]);
    assert(t =~= body);
    let payload = account_payload(a);
    assert forall|k: int| 0 <= k < 60 implies #[trigger] account_digit(a, k) < 32 by {
        lemma_bits_value_below(payload, 5 * k - 4, 5);
        reveal_with_fuel(pow2_8, 6);
    }
    assert forall|k: int| 0 <= k < 60 implies alphabet_position(#[trigger] t[k]) == account_digit(a, k) by {
        lemma_alphabet_position(account_digit(a, k) as int);
    }
    let d = Seq::new(60, |k: int| account_digit(a, k) as u8);
    assert(account_digits(text) == Some(d)) by {
        assert(Seq::new(t.len(), |i: int| alphabet_position(t[i]) as u8) =~= d);
    }
    assert forall|j: int| 0 <= j < 32 implies #[trigger] decoded_account(d)[j] == a.0@[j] by {
        assert forall|m: nat| m <= 8 implies decoded_bits(d, j, m) == bits_value(payload, 8 * j, m) by {
            lemma_decoded_bits(a, d, j, m);
        }
        lemma_byte_bits(payload, j, 8);
        reveal_with_fuel(pow2_8, 1);
        assert(payload[j] == a.0@[j]);
    }
    assert(decoded_account(d) =~= a.0@);
}

proof fn lemma_decoded_bits(a: Account, d: Seq<u8>, j: int, m: nat)
    requires
        0 <= j < 32,
        m <= 8,
        d == Seq::new(60, |k: int| account_digit(a, k) as u8),
        forall|k: int| 0 <= k < 60 ==> #[trigger] account_digit(a, k) < 32,
    ensures
        decoded_bits(d, j, m) == bits_value(account_payload(a), 8 * j, m),
    decreases m,
{
    if m > 0 {
        lemma_decoded_bits(a, d, j, (m - 1) as nat);
        let payload = account_payload(a);
        let p = 40 + 8 * (31 - j) + 8 - m;
        let k = d.len() - 1 - p / 5;
        assert(0 <= k < 60);
        assert(d[k] as nat == account_digit(a, k));
        lemma_bits_value_bit(payload, 5 * k - 4, 5, (p % 5) as nat);
        assert(5 * k - 4 + 5 - 1 - p % 5 == 8 * j + m - 1);
    }
}


proof fn lemma_hex_upper_layout(b: Seq<u8>)
    ensures
        hex_upper(b).len() == 2 * b.len(),
        forall|k: int| 0 <= k < b.len() ==> #[trigger] hex_upper(b)[2 * k] == hex_digit(b[k] as nat / 16)
            && hex_upper(b)[2 * k + 1] == hex_digit(b[k] as nat % 16),
    decreases b.len(),
{
    if b.len() > 0 {
        lemma_hex_upper_layout(b.drop_last());
        let h = hex_upper(b);
        let p = hex_upper(b.drop_last());
        assert forall|k: int| 0 <= k < b.len() implies #[trigger] h[2 * k] == hex_digit(b[k] as nat / 16)
            && h[2 * k + 1] == hex_digit(b[k] as nat % 16) by {
            if k < b.len() - 1 {
                assert(h[2 * k] == p[2 * k]);
                assert(h[2 * k + 1] == p[2 * k + 1]);
                assert(b.drop_last()[k] == b[k]);
            }
        }
    }
}

/// Hexadecimal digits as `encode_hex` writes them read back as the same
/// bytes, so a hash written in hexadecimal is read back unchanged.
pub proof fn lemma_hex_round_trip(b: Seq<u8>)
    ensures
        is_hex_text(hex_upper(b)),
        hex_text_bytes(hex_upper(b)) == b,
{
    lemma_hex_upper_layout(b);
    let h = hex_upper(b);
    assert forall|d: nat| d < 16 implies hex_value(#[trigger] hex_digit(d)) == d by {}
    assert forall|i: int| 0 <= i < h.len() implies hex_value(#[trigger] h[i]) >= 0 by {
        let k = i / 2;
        if i % 2 == 0 {
            assert(i == 2 * k);
            assert(h[2 * k] == hex_digit(b[k] as nat / 16));
        } else {
            assert(i == 2 * k + 1);
            assert(h[2 * k] == hex_digit(b[k] as nat / 16));
            assert(h[2 * k + 1] == hex_digit(b[k] as nat % 16));
        }
    }
    assert(hex_text_bytes(h) =~= b) by {
        assert forall|k: int| 0 <= k < b.len() implies #[trigger] hex_text_bytes(h)[k] == b[k] by {
            assert(h[2 * k] == hex_digit(b[k] as nat / 16));
            assert(h[2 * k + 1] == hex_digit(b[k] as nat % 16));
            assert(16 * (b[k] as nat / 16) + b[k] as nat % 16 == b[k] as nat);
        }
    }
}

} // verus!
