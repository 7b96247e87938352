//! Several signers of one message.

use crate::types::Pubkey;
use vstd::prelude::*;

verus! {

/// A signature.
#[derive(Clone, Copy, Debug, PartialEq, Eq, Hash)]
pub struct Signature(pub [u8; 64]);

impl Default for Signature {
    fn default() -> (r: Self)
        ensures
            r.0@ == zeros(64),
    {
        let r = Signature([0; 64]);
        assert(r.0@ =~= zeros(64));
        r
    }
}

/// So many zero bytes.
pub open spec fn zeros(n: nat) -> Seq<u8> {
    Seq::new(n, |i: int| 0u8)
}

/// Why a signer could not do its part.
#[derive(Clone, Debug, PartialEq, Eq)]
pub struct SignerError(pub String);

/// Whoever can sign messages under an address. What its address is and how it signs is up to the
/// signer.
pub trait Signer {
    /// The signer can give `r` as its address.
    spec fn has_pubkey(&self, r: Result<Pubkey, SignerError>) -> bool;

    /// The signer can give `r` as its signature of `message`.
    spec fn signs(&self, message: &[u8], r: Result<Signature, SignerError>) -> bool;

    fn try_pubkey(&self) -> (r: Result<Pubkey, SignerError>)
        ensures
            self.has_pubkey(r),
    ;

    fn try_sign_message(&self, message: &[u8]) -> (r: Result<Signature, SignerError>)
        ensures
            self.signs(message, r),
    ;
}

/// `r` is the outcome, or the default where the outcome is an error.
pub open spec fn pubkey_or_default(outcome: Result<Pubkey, SignerError>, r: Pubkey) -> bool {
    match outcome {
        Ok(pubkey) => r == pubkey,
        Err(_) => r.0@ == zeros(32),
    }
}

/// `r` is the outcome, or the default where the outcome is an error.
pub open spec fn signature_or_default(
    outcome: Result<Signature, SignerError>,
    r: Signature,
) -> bool {
    match outcome {
        Ok(signature) => r == signature,
        Err(_) => r.0@ == zeros(64),
    }
}

/// The signers answered as `outcomes` says, which is `possible`, and `r` holds the answers, or the
/// default where the answer is an error.
pub open spec fn pubkeys_from(
    possible: Seq<spec_fn(Result<Pubkey, SignerError>) -> bool>,
    outcomes: Seq<Result<Pubkey, SignerError>>,
    r: Seq<Pubkey>,
) -> bool {
    &&& r.len() == possible.len()
    &&& outcomes.len() == possible.len()
    &&& forall|i: int|
        0 <= i < possible.len() ==> possible[i](#[trigger] outcomes[i]) && pubkey_or_default(
            outcomes[i],
            r[i],
        )
}

/// The signers signed as `outcomes` says, which is `possible`, and `r` holds the signatures, or the
/// default where there is an error.
pub open spec fn signatures_from(
    possible: Seq<spec_fn(Result<Signature, SignerError>) -> bool>,
    outcomes: Seq<Result<Signature, SignerError>>,
    r: Seq<Signature>,
) -> bool {
    &&& r.len() == possible.len()
    &&& outcomes.len() == possible.len()
    &&& forall|i: int|
        0 <= i < possible.len() ==> possible[i](#[trigger] outcomes[i]) && signature_or_default(
            outcomes[i],
            r[i],
        )
}

/// Each signer gave its part of `r`.
pub open spec fn all_given<A>(
    possible: Seq<spec_fn(Result<A, SignerError>) -> bool>,
    r: Seq<A>,
) -> bool {
    &&& r.len() == possible.len()
    &&& forall|i: int| 0 <= i < r.len() ==> possible[i](Ok(#[trigger] r[i]))
}

/// The first signers gave `before`, and the next gave the error `e`.
pub open spec fn error_after<A>(
    possible: Seq<spec_fn(Result<A, SignerError>) -> bool>,
    before: Seq<A>,
    e: SignerError,
) -> bool {
    &&& before.len() < possible.len()
    &&& possible[before.len() as int](Err(e))
    &&& forall|i: int| 0 <= i < before.len() ==> possible[i](Ok(#[trigger] before[i]))
}

fn or_default_pubkey(outcome: Result<Pubkey, SignerError>) -> (r: Pubkey)
    ensures
        pubkey_or_default(outcome, r),
{
    match outcome {
        Ok(pubkey) => pubkey,
        Err(_) => {
            let r = Pubkey([0; 32]);
            assert(r.0@ =~= zeros(32));
            r
        },
    }
}

fn or_default_signature(outcome: Result<Signature, SignerError>) -> (r: Signature)
    ensures
        signature_or_default(outcome, r),
{
    match outcome {
        Ok(signature) => signature,
        Err(_) => Signature::default(),
    }
}

/// Several signers, asked in their order.
pub trait Signers {
    /// What each signer can answer when it is asked for its address.
    spec fn pubkey_outcomes(&self) -> Seq<spec_fn(Result<Pubkey, SignerError>) -> bool>;

    /// What each signer can answer when it is asked to sign `message`.
    spec fn signature_outcomes(&self, message: &[u8]) -> Seq<
        spec_fn(Result<Signature, SignerError>) -> bool,
    >;

    /// The address of each signer, and the default address for one that cannot give any.
    fn pubkeys(&self) -> (r: Vec<Pubkey>)
        ensures
            exists|outcomes: Seq<Result<Pubkey, SignerError>>| #[trigger]
                pubkeys_from(self.pubkey_outcomes(), outcomes, r@),
    ;

    /// The address of each signer, or the error of the first that cannot give any.
    fn try_pubkeys(&self) -> (r: Result<Vec<Pubkey>, SignerError>)
        ensures
            r matches Ok(v) ==> all_given(self.pubkey_outcomes(), v@),
            r is Err ==> exists|before: Seq<Pubkey>| #[trigger]
                error_after(self.pubkey_outcomes(), before, r->Err_0),
    ;

    /// The signature of each signer, and the default signature for one that cannot give any.
    fn sign_message(&self, message: &[u8]) -> (r: Vec<Signature>)
        ensures
            exists|outcomes: Seq<Result<Signature, SignerError>>| #[trigger]
                signatures_from(self.signature_outcomes(message), outcomes, r@),
    ;

    /// The signature of each signer, or the error of the first that cannot give any.
    fn try_sign_message(&self, message: &[u8]) -> (r: Result<Vec<Signature>, SignerError>)
        ensures
            r matches Ok(v) ==> all_given(self.signature_outcomes(message), v@),
            r is Err ==> exists|before: Seq<Signature>| #[trigger]
                error_after(self.signature_outcomes(message), before, r->Err_0),
    ;
}

/// What each of `signers` can answer when it is asked for its address.
pub open spec fn pubkey_outcomes_of<T: Signer>(signers: Seq<&T>) -> Seq<
    spec_fn(Result<Pubkey, SignerError>) -> bool,
> {
    Seq::new(
        signers.len(),
        |i: int| |r: Result<Pubkey, SignerError>| signers[i].has_pubkey(r),
    )
}

/// What each of `signers` can answer when it is asked to sign `message`.
pub open spec fn signature_outcomes_of<T: Signer>(signers: Seq<&T>, message: &[u8]) -> Seq<
    spec_fn(Result<Signature, SignerError>) -> bool,
> {
    Seq::new(
        signers.len(),
        |i: int| |r: Result<Signature, SignerError>| signers[i].signs(message, r),
    )
}

impl<T: Signer> Signers for [&T] {
    open spec fn pubkey_outcomes(&self) -> Seq<spec_fn(Result<Pubkey, SignerError>) -> bool> {
        pubkey_outcomes_of(self@)
    }

    open spec fn signature_outcomes(&self, message: &[u8]) -> Seq<
        spec_fn(Result<Signature, SignerError>) -> bool,
    > {
        signature_outcomes_of(self@, message)
    }

    fn pubkeys(&self) -> (r: Vec<Pubkey>) {
        let ghost possible = self.pubkey_outcomes();
        let mut pubkeys: Vec<Pubkey> = Vec::new();
        let ghost mut outcomes: Seq<Result<Pubkey, SignerError>> = Seq::empty();
        let mut i: usize = 0;
        while i < self.len()
            invariant
                i <= self@.len(),
                pubkeys@.len() == i,
                outcomes.len() == i,
                forall|j: int|
                    0 <= j < i ==> self@[j].has_pubkey(#[trigger] outcomes[j])
                        && pubkey_or_default(outcomes[j], pubkeys@[j]),
            decreases self@.len() - i,
        {
            let outcome = self[i].try_pubkey();
            proof {
                outcomes = outcomes.push(outcome);
            }
            pubkeys.push(or_default_pubkey(outcome));
            i = i + 1;
        }
        assert(pubkeys_from(possible, outcomes, pubkeys@));
        pubkeys
    }

    fn try_pubkeys(&self) -> (r: Result<Vec<Pubkey>, SignerError>) {
        let ghost possible = self.pubkey_outcomes();
        let mut pubkeys: Vec<Pubkey> = Vec::new();
        let mut i: usize = 0;
        while i < self.len()
            invariant
                i <= self@.len(),
                pubkeys@.len() == i,
                possible == self.pubkey_outcomes(),
                forall|j: int| 0 <= j < i ==> self@[j].has_pubkey(Ok(#[trigger] pubkeys@[j])),
            decreases self@.len() - i,
        {
            match self[i].try_pubkey() {
                Ok(pubkey) => {
                    pubkeys.push(pubkey);
                },
                Err(e) => {
                    let refused: Result<Vec<Pubkey>, SignerError> = Err(e);
                    assert(error_after(possible, pubkeys@, refused->Err_0));
                    return refused;
                },
            }
            i = i + 1;
        }
        Ok(pubkeys)
    }

    fn sign_message(&self, message: &[u8]) -> (r: Vec<Signature>) {
        let ghost possible = self.signature_outcomes(message);
        let mut signatures: Vec<Signature> = Vec::new();
        let ghost mut outcomes: Seq<Result<Signature, SignerError>> = Seq::empty();
        let mut i: usize = 0;
        while i < self.len()
            invariant
                i <= self@.len(),
                signatures@.len() == i,
                outcomes.len() == i,
                forall|j: int|
                    0 <= j < i ==> self@[j].signs(message, #[trigger] outcomes[j])
                        && signature_or_default(outcomes[j], signatures@[j]),
            decreases self@.len() - i,
        {
            let outcome = self[i].try_sign_message(message);
            proof {
                outcomes = outcomes.push(outcome);
            }
            signatures.push(or_default_signature(outcome));
            i = i + 1;
        }
        assert(signatures_from(possible, outcomes, signatures@));
        signatures
    }

    fn try_sign_message(&self, message: &[u8]) -> (r: Result<Vec<Signature>, SignerError>) {
        let ghost possible = self.signature_outcomes(message);
        let mut signatures: Vec<Signature> = Vec::new();
        let mut i: usize = 0;
        while i < self.len()
            invariant
                i <= self@.len(),
                signatures@.len() == i,
                possible == self.signature_outcomes(message),
                forall|j: int|
                    0 <= j < i ==> self@[j].signs(message, Ok(#[trigger] signatures@[j])),
            decreases self@.len() - i,
        {
            match self[i].try_sign_message(message) {
                Ok(signature) => {
                    signatures.push(signature);
                },
                Err(e) => {
                    let refused: Result<Vec<Signature>, SignerError> = Err(e);
                    assert(error_after(possible, signatures@, refused->Err_0));
                    return refused;
                },
            }
            i = i + 1;
        }
        Ok(signatures)
    }
}

impl Signers for [Box<dyn Signer>] {
    open spec fn pubkey_outcomes(&self) -> Seq<spec_fn(Result<Pubkey, SignerError>) -> bool> {
        Seq::new(
            self@.len(),
            |i: int| |r: Result<Pubkey, SignerError>| self@[i].has_pubkey(r),
        )
    }

    open spec fn signature_outcomes(&self, message: &[u8]) -> Seq<
        spec_fn(Result<Signature, SignerError>) -> bool,
    > {
        Seq::new(
            self@.len(),
            |i: int| |r: Result<Signature, SignerError>| self@[i].signs(message, r),
        )
    }

    fn pubkeys(&self) -> (r: Vec<Pubkey>) {
        let ghost possible = self.pubkey_outcomes();
        let mut pubkeys: Vec<Pubkey> = Vec::new();
        let ghost mut outcomes: Seq<Result<Pubkey, SignerError>> = Seq::empty();
        let mut i: usize = 0;
        while i < self.len()
            invariant
                i <= self@.len(),
                pubkeys@.len() == i,
                outcomes.len() == i,
                forall|j: int|
                    0 <= j < i ==> self@[j].has_pubkey(#[trigger] outcomes[j])
                        && pubkey_or_default(outcomes[j], pubkeys@[j]),
            decreases self@.len() - i,
        {
            let outcome = self[i].try_pubkey();
            proof {
                outcomes = outcomes.push(outcome);
            }
            pubkeys.push(or_default_pubkey(outcome));
            i = i + 1;
        }
        assert(pubkeys_from(possible, outcomes, pubkeys@));
        pubkeys
    }

    fn try_pubkeys(&self) -> (r: Result<Vec<Pubkey>, SignerError>) {
        let ghost possible = self.pubkey_outcomes();
        let mut pubkeys: Vec<Pubkey> = Vec::new();
        let mut i: usize = 0;
        while i < self.len()
            invariant
                i <= self@.len(),
                pubkeys@.len() == i,
                possible == self.pubkey_outcomes(),
                forall|j: int| 0 <= j < i ==> self@[j].has_pubkey(Ok(#[trigger] pubkeys@[j])),
            decreases self@.len() - i,
        {
            match self[i].try_pubkey() {
                Ok(pubkey) => {
                    pubkeys.push(pubkey);
                },
                Err(e) => {
                    let refused: Result<Vec<Pubkey>, SignerError> = Err(e);
                    assert(error_after(possible, pubkeys@, refused->Err_0));
                    return refused;
                },
            }
            i = i + 1;
        }
        Ok(pubkeys)
    }

    fn sign_message(&self, message: &[u8]) -> (r: Vec<Signature>) {
        let ghost possible = self.signature_outcomes(message);
        let mut signatures: Vec<Signature> = Vec::new();
        let ghost mut outcomes: Seq<Result<Signature, SignerError>> = Seq::empty();
        let mut i: usize = 0;
        while i < self.len()
            invariant
                i <= self@.len(),
                signatures@.len() == i,
                outcomes.len() == i,
                forall|j: int|
                    0 <= j < i ==> self@[j].signs(message, #[trigger] outcomes[j])
                        && signature_or_default(outcomes[j], signatures@[j]),
            decreases self@.len() - i,
        {
            let outcome = self[i].try_sign_message(message);
            proof {
                outcomes = outcomes.push(outcome);
            }
            signatures.push(or_default_signature(outcome));
            i = i + 1;
        }
        assert(signatures_from(possible, outcomes, signatures@));
        signatures
    }

    fn try_sign_message(&self, message: &[u8]) -> (r: Result<Vec<Signature>, SignerError>) {
        let ghost possible = self.signature_outcomes(message);
        let mut signatures: Vec<Signature> = Vec::new();
        let mut i: usize = 0;
        while i < self.len()
            invariant
                i <= self@.len(),
                signatures@.len() == i,
                possible == self.signature_outcomes(message),
                forall|j: int|
                    0 <= j < i ==> self@[j].signs(message, Ok(#[trigger] signatures@[j])),
            decreases self@.len() - i,
        {
            match self[i].try_sign_message(message) {
                Ok(signature) => {
                    signatures.push(signature);
                },
                Err(e) => {
                    let refused: Result<Vec<Signature>, SignerError> = Err(e);
                    assert(error_after(possible, signatures@, refused->Err_0));
                    return refused;
                },
            }
            i = i + 1;
        }
        Ok(signatures)
    }
}

impl<T: Signer, const N: usize> Signers for [&T; N] {
    open spec fn pubkey_outcomes(&self) -> Seq<spec_fn(Result<Pubkey, SignerError>) -> bool> {
        pubkey_outcomes_of(self@)
    }

    open spec fn signature_outcomes(&self, message: &[u8]) -> Seq<
        spec_fn(Result<Signature, SignerError>) -> bool,
    > {
        signature_outcomes_of(self@, message)
    }

    fn pubkeys(&self) -> (r: Vec<Pubkey>) {
        let signers: &[&T] = self.as_slice();
        assert(signers.pubkey_outcomes() == self.pubkey_outcomes());
        signers.pubkeys()
    }

    fn try_pubkeys(&self) -> (r: Result<Vec<Pubkey>, SignerError>) {
        let signers: &[&T] = self.as_slice();
        assert(signers.pubkey_outcomes() == self.pubkey_outcomes());
        signers.try_pubkeys()
    }

    fn sign_message(&self, message: &[u8]) -> (r: Vec<Signature>) {
        let signers: &[&T] = self.as_slice();
        assert(signers.signature_outcomes(message) == self.signature_outcomes(message));
        signers.sign_message(message)
    }

    fn try_sign_message(&self, message: &[u8]) -> (r: Result<Vec<Signature>, SignerError>) {
        let signers: &[&T] = self.as_slice();
        assert(signers.signature_outcomes(message) == self.signature_outcomes(message));
        signers.try_sign_message(message)
    }
}

impl<T: Signer> Signers for Vec<&T> {
    open spec fn pubkey_outcomes(&self) -> Seq<spec_fn(Result<Pubkey, SignerError>) -> bool> {
        pubkey_outcomes_of(self@)
    }

    open spec fn signature_outcomes(&self, message: &[u8]) -> Seq<
        spec_fn(Result<Signature, SignerError>) -> bool,
    > {
        signature_outcomes_of(self@, message)
    }

    fn pubkeys(&self) -> (r: Vec<Pubkey>) {
        let signers: &[&T] = self.as_slice();
        assert(signers.pubkey_outcomes() == self.pubkey_outcomes());
        signers.pubkeys()
    }

    fn try_pubkeys(&self) -> (r: Result<Vec<Pubkey>, SignerError>) {
        let signers: &[&T] = self.as_slice();
        assert(signers.pubkey_outcomes() == self.pubkey_outcomes());
        signers.try_pubkeys()
    }

    fn sign_message(&self, message: &[u8]) -> (r: Vec<Signature>) {
        let signers: &[&T] = self.as_slice();
        assert(signers.signature_outcomes(message) == self.signature_outcomes(message));
        signers.sign_message(message)
    }

    fn try_sign_message(&self, message: &[u8]) -> (r: Result<Vec<Signature>, SignerError>) {
        let signers: &[&T] = self.as_slice();
        assert(signers.signature_outcomes(message) == self.signature_outcomes(message));
        signers.try_sign_message(message)
    }
}

/// What several signers give is what each of them gives, in their order; and where one cannot give
/// anything, the error is that of the first that cannot.
pub proof fn law_each_signer_signs<T: Signer>(
    signers: &Vec<&T>,
    message: &[u8],
    r: Result<Vec<Signature>, SignerError>,
    i: int,
)
    requires
        call_ensures(<Vec<&T> as Signers>::try_sign_message, (signers, message), r),
    ensures
        r matches Ok(signatures) ==> {
            &&& signatures@.len() == signers@.len()
            &&& 0 <= i < signers@.len() ==> signers@[i].signs(message, Ok(signatures@[i]))
        },
        r is Err ==> exists|k: int, before: Seq<Signature>|
            {
                &&& 0 <= k < signers@.len()
                &&& before.len() == k
                &&& signers@[k].signs(message, Err(r->Err_0))
                &&& #[trigger] all_sign(signers@.take(k), message, before)
            },
        signers@.len() == 0 ==> r is Ok,
{
    let possible = signature_outcomes_of(signers@, message);
    if r is Ok && 0 <= i < signers@.len() {
        assert(possible[i](Ok(r->Ok_0@[i])));
    }
    if r is Err {
        let before = choose|before: Seq<Signature>| #[trigger]
            error_after(possible, before, r->Err_0);
        let k = before.len() as int;
        assert(possible[k](Err(r->Err_0)));
        assert forall|j: int| 0 <= j < k implies signers@.take(k)[j].signs(
            message,
            Ok(#[trigger] before[j]),
        ) by {
            assert(possible[j](Ok(before[j])));
        }
        assert(all_sign(signers@.take(k), message, before));
    }
}

/// Each of the signers can give its signature.
pub open spec fn all_sign<T: Signer>(
    signers: Seq<&T>,
    message: &[u8],
    signatures: Seq<Signature>,
) -> bool {
    &&& signatures.len() == signers.len()
    &&& forall|j: int|
        0 <= j < signers.len() ==> signers[j].signs(message, Ok(#[trigger] signatures[j]))
}

/// The addresses of several signers are those that each of them has, in their order.
pub proof fn law_each_signer_has_its_address<T: Signer>(
    signers: &Vec<&T>,
    r: Result<Vec<Pubkey>, SignerError>,
    i: int,
)
    requires
        call_ensures(<Vec<&T> as Signers>::try_pubkeys, (signers,), r),
    ensures
        r matches Ok(pubkeys) ==> {
            &&& pubkeys@.len() == signers@.len()
            &&& 0 <= i < signers@.len() ==> signers@[i].has_pubkey(Ok(pubkeys@[i]))
        },
        r is Err ==> exists|k: int|
            0 <= k < signers@.len() && (#[trigger] signers@[k]).has_pubkey(Err(r->Err_0)),
        signers@.len() == 0 ==> r is Ok,
{
    let possible = pubkey_outcomes_of(signers@);
    if r is Ok && 0 <= i < signers@.len() {
        assert(possible[i](Ok(r->Ok_0@[i])));
    }
    if r is Err {
        let before = choose|before: Seq<Pubkey>| #[trigger]
            error_after(possible, before, r->Err_0);
        let k = before.len() as int;
        assert(possible[k](Err(r->Err_0)));
        assert(signers@[k].has_pubkey(Err(r->Err_0)));
    }
}

/// A signer that cannot sign leaves the place of its signature empty, and no other.
pub proof fn law_a_missing_signature_is_empty<T: Signer>(
    signers: &Vec<&T>,
    message: &[u8],
    r: Vec<Signature>,
    i: int,
    k: int,
)
    requires
        call_ensures(<Vec<&T> as Signers>::sign_message, (signers, message), r),
        0 <= i < signers@.len(),
    ensures
        r@.len() == signers@.len(),
        signers@[i].signs(message, Ok(r@[i])) || (exists|e: SignerError| #[trigger]
            signers@[i].signs(message, Err(e))) && (0 <= k < 64 ==> r@[i].0@[k] == 0),
{
    let possible = signature_outcomes_of(signers@, message);
    let outcomes = choose|outcomes: Seq<Result<Signature, SignerError>>| #[trigger]
        signatures_from(possible, outcomes, r@);
    let outcome = outcomes[i];
    assert(possible[i](outcome));
    match outcome {
        Ok(signature) => {},
        Err(e) => {
            assert(signers@[i].signs(message, Err(e)));
            assert(r@[i].0@ == zeros(64));
        },
    }
}

/// A signer that has no address has the empty one in its place.
pub proof fn law_a_missing_address_is_empty<T: Signer>(
    signers: &Vec<&T>,
    r: Vec<Pubkey>,
    i: int,
    k: int,
)
    requires
        call_ensures(<Vec<&T> as Signers>::pubkeys, (signers,), r),
        0 <= i < signers@.len(),
    ensures
        r@.len() == signers@.len(),
        signers@[i].has_pubkey(Ok(r@[i])) || (exists|e: SignerError| #[trigger]
            signers@[i].has_pubkey(Err(e))) && (0 <= k < 32 ==> r@[i].0@[k] == 0),
{
    let possible = pubkey_outcomes_of(signers@);
    let outcomes = choose|outcomes: Seq<Result<Pubkey, SignerError>>| #[trigger]
        pubkeys_from(possible, outcomes, r@);
    let outcome = outcomes[i];
    assert(possible[i](outcome));
    match outcome {
        Ok(pubkey) => {},
        Err(e) => {
            assert(signers@[i].has_pubkey(Err(e)));
            assert(r@[i].0@ == zeros(32));
        },
    }
}

} // verus!
