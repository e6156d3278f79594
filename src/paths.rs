//! Where each artifact of a ceremony lives in its working directory.

use vstd::prelude::*;
use vstd::string::StringExecFns;
use crate::primitives::push_char;
use crate::text::{dec_string, push_decimal};

verus! {

/// `name` placed in the directory `base`, with one separator between them.
pub open spec fn joined(base: Seq<char>, name: Seq<char>) -> Seq<char> {
    if base.len() == 0 || base.last() == '/' {
        base + name
    } else {
        base + seq!['/'] + name
    }
}

/// The file name of a participant's artifact: `stem`, the participant's
/// index in decimal, `.json`.
pub open spec fn numbered(stem: Seq<char>, participant: u16) -> Seq<char> {
    stem + dec_string(participant as nat) + ".json"@
}

/// The paths of a ceremony's artifacts under one working directory.
#[derive(Clone, Debug)]
pub struct FilePaths {
    base: String,
}

impl FilePaths {
    /// The working directory.
    pub closed spec fn base(&self) -> Seq<char> {
        self.base@
    }

    /// The artifacts under the directory `base`.
    pub fn new(base: &str) -> (r: Self)
        ensures
            r.base() == base@,
    {
        Self { base: String::from_str(base) }
    }

    fn join(&self, name: &str) -> (r: String)
        ensures
            r@ == joined(self.base(), name@),
    {
        let mut path = self.base.clone();
        let n = self.base.as_str().unicode_len();
        if n > 0 && self.base.as_str().get_char(n - 1) != '/' {
            push_char(&mut path, '/');
        }
        path.append(name);
        proof {
            if !(self.base@.len() == 0 || self.base@.last() == '/') {
                assert(self.base@ + seq!['/'] + name@ =~= self.base@.push('/') + name@);
            }
        }
        path
    }

    fn join_numbered(&self, stem: &str, participant: u16) -> (r: String)
        ensures
            r@ == joined(self.base(), numbered(stem@, participant)),
    {
        let mut name = String::from_str(stem);
        push_decimal(&mut name, participant as u128);
        name.append(".json");
        self.join(name.as_str())
    }

    /// A participant's secret key.
    pub fn contributor_secret_key(&self, participant: u16) -> (r: String)
        ensures
            r@ == joined(self.base(), numbered("contributor_secret_key"@, participant)),
    {
        self.join_numbered("contributor_secret_key", participant)
    }

    /// The public keys of all participants.
    pub fn recipients(&self) -> (r: String)
        ensures
            r@ == joined(self.base(), "recipients.json"@),
    {
        self.join("recipients.json")
    }

    /// The contribution set of key generation.
    pub fn all_messages(&self) -> (r: String)
        ensures
            r@ == joined(self.base(), "all_messages.json"@),
    {
        self.join("all_messages.json")
    }

    /// A participant's output of key generation.
    pub fn generation_output(&self, participant: u16) -> (r: String)
        ensures
            r@ == joined(self.base(), numbered("generation_output"@, participant)),
    {
        self.join_numbered("generation_output", participant)
    }

    /// A participant's signing share.
    pub fn signing_share(&self, participant: u16) -> (r: String)
        ensures
            r@ == joined(self.base(), numbered("signing_share"@, participant)),
    {
        self.join_numbered("signing_share", participant)
    }

    /// The group public key.
    pub fn threshold_public_key(&self) -> (r: String)
        ensures
            r@ == joined(self.base(), "threshold_public_key.json"@),
    {
        self.join("threshold_public_key.json")
    }

    /// A participant's signing nonce.
    pub fn signing_nonce(&self, participant: u16) -> (r: String)
        ensures
            r@ == joined(self.base(), numbered("signing_nonce"@, participant)),
    {
        self.join_numbered("signing_nonce", participant)
    }

    /// The commitment set of signing.
    pub fn signing_commitments(&self) -> (r: String)
        ensures
            r@ == joined(self.base(), "signing_commitments.json"@),
    {
        self.join("signing_commitments.json")
    }

    /// The package set of signing.
    pub fn signing_packages(&self) -> (r: String)
        ensures
            r@ == joined(self.base(), "signing_packages.json"@),
    {
        self.join("signing_packages.json")
    }

    /// The aggregate signature.
    pub fn threshold_signature(&self) -> (r: String)
        ensures
            r@ == joined(self.base(), "threshold_signature.json"@),
    {
        self.join("threshold_signature.json")
    }

    /// The ceremony parameters: the threshold and the number of participants.
    pub fn parameters(&self) -> (r: String)
        ensures
            r@ == joined(self.base(), "parameters.json"@),
    {
        self.join("parameters.json")
    }

    /// The transaction that the ceremony signs.
    pub fn extrinsic_info(&self) -> (r: String)
        ensures
            r@ == joined(self.base(), "extrinsic_info.json"@),
    {
        self.join("extrinsic_info.json")
    }
}

} // verus!
